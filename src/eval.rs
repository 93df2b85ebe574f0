//! The evaluator: its model as spec functions over values and stores, and
//! the executable code proved to follow it.

use vstd::prelude::*;

use crate::builtins::{call_pure, fault_of, flatten_args, is_callable, truth, value_matches, values_match};
use crate::env::{Env, EnvTree, FRAME_LIMIT, Store, bind_spec, child_spec, owner_spec, resolve_spec};
use crate::expr::{
    Atom, Builtin, EvalError, Exp, Kind, Procedure, Value, copy_names, kind_of, lemma_view_seq_all,
    lemma_view_seq_push, value_equal, view_exp, view_names, view_seq,
};
use crate::render::{render_args, render_items};

verus! {

broadcast use vstd::std_specs::vec::group_vec_axioms, vstd::seq::group_seq_axioms;

/// The model of an evaluation error.
pub enum Fault {
    UnboundSymbol(Seq<char>),
    EmptyApplication,
    NotCallable,
    TypeMismatch(Kind, Kind),
    ArityMismatch,
    NumericRange,
    DivisionByZero,
    DepthExceeded,
    ArenaFull,
}

pub type Outcome = (Store, Result<Value, Fault>);

pub open spec fn fits(n: int) -> bool {
    i64::MIN <= n <= i64::MAX
}

/// A number, or `NumericRange` where it does not fit in 64 bits.
pub open spec fn number(n: int) -> Result<Value, Fault> {
    if fits(n) {
        Ok(Value::Number(n))
    } else {
        Err(Fault::NumericRange)
    }
}

pub open spec fn as_num(v: Value) -> Result<int, Fault> {
    match v {
        Value::Number(n) => Ok(n),
        _ => Err(Fault::TypeMismatch(Kind::Number, kind_of(v))),
    }
}

/// The boolean a test yields: a boolean itself, or whether a list is non-empty.
pub open spec fn truthy(v: Value) -> Result<bool, Fault> {
    match v {
        Value::Bool(b) => Ok(b),
        Value::List(l) => Ok(l.len() > 0),
        _ => Err(Fault::TypeMismatch(Kind::Bool, kind_of(v))),
    }
}

pub open spec fn callable(v: Value) -> bool {
    v is Function || v is Closure
}

pub open spec fn abs_int(n: int) -> int {
    if n < 0 { -n } else { n }
}

/// Integer division rounded toward zero.
pub open spec fn trunc_div(a: int, b: int) -> int {
    let q = abs_int(a) / abs_int(b);
    if (a < 0) != (b < 0) { -q } else { q }
}

pub open spec fn power(b: int, e: nat) -> int
    decreases e,
{
    if e == 0 { 1 } else { b * power(b, (e - 1) as nat) }
}

/// The numbers of a sequence of arguments; the first that is not a number
/// gives a type mismatch.
pub open spec fn nums_of(args: Seq<Value>) -> Result<Seq<int>, Fault>
    decreases args.len(),
{
    if args.len() == 0 {
        Ok(Seq::empty())
    } else {
        match nums_of(args.drop_last()) {
            Err(e) => Err(e),
            Ok(ns) => match as_num(args.last()) {
                Ok(n) => Ok(ns.push(n)),
                Err(e) => Err(e),
            },
        }
    }
}

pub open spec fn seq_min(ns: Seq<int>) -> int
    decreases ns.len(),
{
    if ns.len() <= 1 {
        ns[0]
    } else {
        let m = seq_min(ns.drop_last());
        if ns.last() < m { ns.last() } else { m }
    }
}

pub open spec fn seq_max(ns: Seq<int>) -> int
    decreases ns.len(),
{
    if ns.len() <= 1 {
        ns[0]
    } else {
        let m = seq_max(ns.drop_last());
        if ns.last() > m { ns.last() } else { m }
    }
}

/// The concatenation of the lists among `args`; the first that is not a
/// list gives a type mismatch.
pub open spec fn concat_lists(args: Seq<Value>) -> Result<Seq<Value>, Fault>
    decreases args.len(),
{
    if args.len() == 0 {
        Ok(Seq::empty())
    } else {
        match concat_lists(args.drop_last()) {
            Err(e) => Err(e),
            Ok(items) => match args.last() {
                Value::List(l) => Ok(items + l),
                v => Err(Fault::TypeMismatch(Kind::List, kind_of(v))),
            },
        }
    }
}

/// The arguments of `apply`: each list spliced in, anything else kept.
pub open spec fn flatten(args: Seq<Value>) -> Seq<Value>
    decreases args.len(),
{
    if args.len() == 0 {
        Seq::empty()
    } else {
        match args.last() {
            Value::List(l) => flatten(args.drop_last()) + l,
            v => flatten(args.drop_last()).push(v),
        }
    }
}

pub open spec fn binary_num(args: Seq<Value>) -> Result<(int, int), Fault> {
    if args.len() != 2 {
        Err(Fault::ArityMismatch)
    } else {
        match (as_num(args[0]), as_num(args[1])) {
            (Err(e), _) => Err(e),
            (Ok(_), Err(e)) => Err(e),
            (Ok(a), Ok(b)) => Ok((a, b)),
        }
    }
}

pub open spec fn unary(args: Seq<Value>) -> Result<Value, Fault> {
    if args.len() != 1 {
        Err(Fault::ArityMismatch)
    } else {
        Ok(args[0])
    }
}

/// The builtins that neither re-enter evaluation nor print.
pub open spec fn pure_builtin(b: Builtin, args: Seq<Value>) -> Result<Value, Fault> {
    match b {
        Builtin::Add => match binary_num(args) { Ok((x, y)) => number(x + y), Err(e) => Err(e) },
        Builtin::Sub => match binary_num(args) { Ok((x, y)) => number(x - y), Err(e) => Err(e) },
        Builtin::Mul => match binary_num(args) { Ok((x, y)) => number(x * y), Err(e) => Err(e) },
        Builtin::Div => match binary_num(args) {
            Ok((x, y)) => if y == 0 { Err(Fault::DivisionByZero) } else { number(trunc_div(x, y)) },
            Err(e) => Err(e),
        },
        Builtin::Lt => match binary_num(args) { Ok((x, y)) => Ok(Value::Bool(x < y)), Err(e) => Err(e) },
        Builtin::Le => match binary_num(args) { Ok((x, y)) => Ok(Value::Bool(x <= y)), Err(e) => Err(e) },
        Builtin::Gt => match binary_num(args) { Ok((x, y)) => Ok(Value::Bool(x > y)), Err(e) => Err(e) },
        Builtin::Ge => match binary_num(args) { Ok((x, y)) => Ok(Value::Bool(x >= y)), Err(e) => Err(e) },
        Builtin::NumEq => match binary_num(args) { Ok((x, y)) => Ok(Value::Bool(x == y)), Err(e) => Err(e) },
        Builtin::Expt => match binary_num(args) {
            Ok((x, y)) => if y < 0 { Err(Fault::NumericRange) } else { number(power(x, y as nat)) },
            Err(e) => Err(e),
        },
        Builtin::Abs => match unary(args) {
            Ok(v) => match as_num(v) { Ok(x) => number(abs_int(x)), Err(e) => Err(e) },
            Err(e) => Err(e),
        },
        Builtin::Round => match unary(args) {
            Ok(v) => match as_num(v) { Ok(x) => Ok(Value::Number(x)), Err(e) => Err(e) },
            Err(e) => Err(e),
        },
        Builtin::Min => if args.len() == 0 { Err(Fault::ArityMismatch) } else {
            match nums_of(args) { Ok(ns) => Ok(Value::Number(seq_min(ns))), Err(e) => Err(e) }
        },
        Builtin::Max => if args.len() == 0 { Err(Fault::ArityMismatch) } else {
            match nums_of(args) { Ok(ns) => Ok(Value::Number(seq_max(ns))), Err(e) => Err(e) }
        },
        Builtin::Equal => if args.len() != 2 { Err(Fault::ArityMismatch) } else {
            Ok(Value::Bool(value_equal(args[0], args[1])))
        },
        Builtin::List => Ok(Value::List(args)),
        Builtin::Car => match unary(args) {
            Ok(Value::List(l)) => if l.len() > 0 { Ok(l[0]) } else { Err(Fault::TypeMismatch(Kind::List, Kind::List)) },
            Ok(v) => Err(Fault::TypeMismatch(Kind::List, kind_of(v))),
            Err(e) => Err(e),
        },
        Builtin::Cdr => match unary(args) {
            Ok(Value::List(l)) => Ok(Value::List(if l.len() > 0 { l.subrange(1, l.len() as int) } else { l })),
            Ok(v) => Err(Fault::TypeMismatch(Kind::List, kind_of(v))),
            Err(e) => Err(e),
        },
        Builtin::Cons => if args.len() != 2 { Err(Fault::ArityMismatch) } else {
            match args[1] {
                Value::List(l) => Ok(Value::List(seq![args[0]] + l)),
                v => Err(Fault::TypeMismatch(Kind::List, kind_of(v))),
            }
        },
        Builtin::Append => match concat_lists(args) { Ok(l) => Ok(Value::List(l)), Err(e) => Err(e) },
        Builtin::Length => match unary(args) {
            Ok(Value::List(l)) => number(l.len() as int),
            Ok(v) => Err(Fault::TypeMismatch(Kind::List, kind_of(v))),
            Err(e) => Err(e),
        },
        Builtin::IsNull => match unary(args) {
            Ok(Value::List(l)) => Ok(Value::Bool(l.len() == 0)),
            Ok(v) => Err(Fault::TypeMismatch(Kind::List, kind_of(v))),
            Err(e) => Err(e),
        },
        Builtin::IsList => match unary(args) { Ok(v) => Ok(Value::Bool(v is List)), Err(e) => Err(e) },
        Builtin::IsNumber => match unary(args) { Ok(v) => Ok(Value::Bool(v is Number)), Err(e) => Err(e) },
        Builtin::IsSymbol => match unary(args) { Ok(v) => Ok(Value::Bool(v is Symbol)), Err(e) => Err(e) },
        Builtin::IsProcedure => match unary(args) { Ok(v) => Ok(Value::Bool(callable(v))), Err(e) => Err(e) },
        Builtin::Not => match unary(args) {
            Ok(v) => match truthy(v) { Ok(t) => Ok(Value::Bool(!t)), Err(e) => Err(e) },
            Err(e) => Err(e),
        },
        Builtin::Begin => if args.len() == 0 { Err(Fault::ArityMismatch) } else { Ok(args.last()) },
        _ => Ok(Value::List(Seq::empty())),
    }
}

/// The parameter names of a `lambda` form.
pub open spec fn param_names(v: Value) -> Option<Seq<Seq<char>>> {
    match v {
        Value::List(l) => if forall|i: int| 0 <= i < l.len() ==> #[trigger] l[i] is Symbol {
            Some(l.map_values(|p: Value| p->Symbol_0))
        } else {
            None
        },
        _ => None,
    }
}

/// Evaluates `x` in frame `env` with a depth budget of `fuel`: the store
/// afterwards and the result.
pub open spec fn eval_spec(x: Value, s: Store, env: nat, fuel: nat) -> Outcome
    decreases fuel, 0int, 0int,
{
    if fuel == 0 {
        (s, Err(Fault::DepthExceeded))
    } else {
        let f = (fuel - 1) as nat;
        match x {
            Value::Symbol(name) => (s, match resolve_spec(s.scopes, env, name) {
                Some(v) => Ok(v),
                None => Err(Fault::UnboundSymbol(name)),
            }),
            Value::List(items) => eval_list(items, s, env, f),
            _ => (s, Ok(x)),
        }
    }
}

/// Evaluates a list form: a special form or an application.
pub open spec fn eval_list(items: Seq<Value>, s: Store, env: nat, f: nat) -> Outcome
    decreases f, 4int, 0int,
{
    if items.len() == 0 {
        (s, Err(Fault::EmptyApplication))
    } else if items[0] == Value::Symbol("quote"@) {
        if items.len() != 2 { (s, Err(Fault::ArityMismatch)) } else { (s, Ok(items[1])) }
    } else if items[0] == Value::Symbol("if"@) {
        if items.len() != 4 {
            (s, Err(Fault::ArityMismatch))
        } else {
            let (s1, t) = eval_spec(items[1], s, env, f);
            match t {
                Err(e) => (s1, Err(e)),
                Ok(tv) => match truthy(tv) {
                    Err(e) => (s1, Err(e)),
                    Ok(b) => eval_spec(if b { items[2] } else { items[3] }, s1, env, f),
                },
            }
        }
    } else if items[0] == Value::Symbol("define"@) {
        if items.len() != 3 {
            (s, Err(Fault::ArityMismatch))
        } else {
            match items[1] {
                Value::Symbol(name) => {
                    let (s1, r) = eval_spec(items[2], s, env, f);
                    match r {
                        Err(e) => (s1, Err(e)),
                        Ok(v) => (bind_spec(s1, env, name, v), Ok(v)),
                    }
                },
                v => (s, Err(Fault::TypeMismatch(Kind::Symbol, kind_of(v)))),
            }
        }
    } else if items[0] == Value::Symbol("set!"@) {
        if items.len() != 3 {
            (s, Err(Fault::ArityMismatch))
        } else {
            match items[1] {
                Value::Symbol(name) => {
                    let (s1, r) = eval_spec(items[2], s, env, f);
                    match r {
                        Err(e) => (s1, Err(e)),
                        Ok(v) => match owner_spec(s1.scopes, env, name) {
                            Some(k) => (bind_spec(s1, k, name, v), Ok(Value::Bool(true))),
                            None => (s1, Err(Fault::UnboundSymbol(name))),
                        },
                    }
                },
                v => (s, Err(Fault::TypeMismatch(Kind::Symbol, kind_of(v)))),
            }
        }
    } else if items[0] == Value::Symbol("lambda"@) {
        if items.len() != 3 {
            (s, Err(Fault::ArityMismatch))
        } else {
            match param_names(items[1]) {
                Some(ps) => (s, Ok(Value::Closure(ps, Box::new(items[2]), env))),
                None => (s, Err(Fault::TypeMismatch(Kind::List, kind_of(items[1])))),
            }
        }
    } else {
        let (s1, h) = eval_spec(items[0], s, env, f);
        match h {
            Err(e) => (s1, Err(e)),
            Ok(hv) => if !callable(hv) {
                (s1, Err(Fault::NotCallable))
            } else {
                let (s2, a) = eval_args(items, 1, s1, env, f);
                match a {
                    Err(e) => (s2, Err(e)),
                    Ok(args) => apply_spec(hv, args, s2, f),
                }
            },
        }
    }
}

/// Evaluates `items[i..]` left to right, threading the store.
pub open spec fn eval_args(items: Seq<Value>, i: int, s: Store, env: nat, fuel: nat) -> (Store, Result<Seq<Value>, Fault>)
    decreases fuel, 1int, items.len() - i,
{
    if i < 0 || i >= items.len() {
        (s, Ok(Seq::empty()))
    } else {
        let (s1, r) = eval_spec(items[i], s, env, fuel);
        match r {
            Err(e) => (s1, Err(e)),
            Ok(v) => {
                let (s2, rest) = eval_args(items, i + 1, s1, env, fuel);
                match rest {
                    Err(e) => (s2, Err(e)),
                    Ok(vs) => (s2, Ok(seq![v] + vs)),
                }
            },
        }
    }
}

/// Calls `f` on `items[i..]`, one item at a time, threading the store.
pub open spec fn map_spec(f: Value, items: Seq<Value>, i: int, s: Store, fuel: nat) -> (Store, Result<Seq<Value>, Fault>)
    decreases fuel, 2int, items.len() - i,
{
    if i < 0 || i >= items.len() {
        (s, Ok(Seq::empty()))
    } else if fuel == 0 {
        (s, Err(Fault::DepthExceeded))
    } else {
        let (s1, r) = apply_spec(f, seq![items[i]], s, (fuel - 1) as nat);
        match r {
            Err(e) => (s1, Err(e)),
            Ok(v) => {
                let (s2, rest) = map_spec(f, items, i + 1, s1, fuel);
                match rest {
                    Err(e) => (s2, Err(e)),
                    Ok(vs) => (s2, Ok(seq![v] + vs)),
                }
            },
        }
    }
}

/// Invokes a procedure value on evaluated arguments.
pub open spec fn apply_spec(h: Value, args: Seq<Value>, s: Store, fuel: nat) -> Outcome
    decreases fuel, 3int, 0int,
{
    match h {
        Value::Closure(ps, body, cenv) => if cenv >= s.scopes.len() {
            (s, Err(Fault::NotCallable))
        } else if s.scopes.len() >= FRAME_LIMIT {
            (s, Err(Fault::ArenaFull))
        } else {
            eval_spec(*body, child_spec(s, ps, args, Some(cenv)), s.scopes.len(), fuel)
        },
        Value::Function(Builtin::Apply) => if args.len() == 0 {
            (s, Err(Fault::ArityMismatch))
        } else if !callable(args[0]) {
            (s, Err(Fault::NotCallable))
        } else if fuel == 0 {
            (s, Err(Fault::DepthExceeded))
        } else {
            apply_spec(args[0], flatten(args.subrange(1, args.len() as int)), s, (fuel - 1) as nat)
        },
        Value::Function(Builtin::MapList) => if args.len() != 2 {
            (s, Err(Fault::ArityMismatch))
        } else if !callable(args[0]) {
            (s, Err(Fault::NotCallable))
        } else {
            match args[1] {
                Value::List(l) => {
                    let (s1, r) = map_spec(args[0], l, 0, s, fuel);
                    match r {
                        Ok(vs) => (s1, Ok(Value::List(vs))),
                        Err(e) => (s1, Err(e)),
                    }
                },
                v => (s, Err(Fault::TypeMismatch(Kind::List, kind_of(v)))),
            }
        },
        Value::Function(Builtin::Print) => (
            Store { scopes: s.scopes, printed: s.printed.push(render_items(args)) },
            Ok(Value::List(Seq::empty())),
        ),
        Value::Function(b) => (s, pure_builtin(b, args)),
        _ => (s, Err(Fault::NotCallable)),
    }
}

/// The parameter names of a `lambda` form, as `param_names` states them.
fn param_list(e: &Exp) -> (r: Option<Vec<String>>)
    ensures
        match param_names(view_exp(*e)) {
            Some(ps) => r matches Some(v) && view_names(v@) == ps,
            None => r is None,
        },
{
    match e {
        Exp::List(l) => {
            proof {
                lemma_view_seq_all(l@);
            }
            let ghost vl = view_seq(l@);
            let mut out: Vec<String> = Vec::new();
            let mut i: usize = 0;
            while i < l.len()
                invariant
                    i <= l@.len(),
                    *e == Exp::List(*l),
                    vl == view_seq(l@),
                    vl.len() == l@.len(),
                    forall|k: int| 0 <= k < l@.len() ==> #[trigger] vl[k] == view_exp(l@[k]),
                    out@.len() == i,
                    forall|k: int| 0 <= k < i ==> #[trigger] vl[k] is Symbol && out@[k]@ == vl[k]->Symbol_0,
                decreases l@.len() - i,
            {
                match &l[i] {
                    Exp::Atom(Atom::Symbol(name)) => {
                        out.push(name.clone());
                    },
                    _ => {
                        assert(!(vl[i as int] is Symbol));
                        assert(view_exp(*e) == Value::List(vl));
                        return None;
                    },
                }
                i = i + 1;
            }
            assert(view_names(out@) =~= vl.map_values(|p: Value| p->Symbol_0));
            assert(view_exp(*e) == Value::List(vl));
            Some(out)
        },
        _ => None,
    }
}

pub open spec fn outcome_matches(t: EnvTree, r: Result<Exp, EvalError>, o: Outcome) -> bool {
    t.view() == o.0 && value_matches(r, o.1)
}

/// Evaluates `x` in frame `env_id`, nesting at most `fuel` deep; the
/// arena and the result are those `eval_spec` gives.
pub fn eval(x: &Exp, env_tree: &mut EnvTree, env_id: usize, fuel: u64) -> (r: Result<Exp, EvalError>)
    requires
        old(env_tree).wf(),
        env_id < old(env_tree).keys@.len(),
    ensures
        final(env_tree).wf(),
        final(env_tree).keys@.len() >= old(env_tree).keys@.len(),
        outcome_matches(*final(env_tree), r, eval_spec(view_exp(*x), old(env_tree).view(), env_id as nat, fuel as nat)),
    decreases fuel, 0int, 0int,
{
    if fuel == 0 {
        return Err(EvalError::DepthExceeded);
    }
    let f = fuel - 1;
    match x {
        Exp::Atom(Atom::Symbol(name)) => env_tree.lookup(env_id, name),
        Exp::List(items) => eval_items(items, env_tree, env_id, f),
        Exp::Atom(a) => Ok(Exp::Atom(a.duplicate())),
        Exp::Function(b) => Ok(Exp::Function(*b)),
        Exp::Procedure(_) => Ok(x.duplicate()),
    }
}

pub open spec fn list_outcome(items: &Vec<Exp>, old_tree: EnvTree, new_tree: EnvTree, r: Result<Exp, EvalError>, env_id: usize, f: u64) -> bool {
    &&& new_tree.wf()
    &&& new_tree.keys@.len() >= old_tree.keys@.len()
    &&& outcome_matches(new_tree, r, eval_list(view_seq(items@), old_tree.view(), env_id as nat, f as nat))
}

pub open spec fn heads(items: &Vec<Exp>, name: Seq<char>) -> bool {
    items@.len() > 0 && view_exp(items@[0]) == Value::Symbol(name)
}

pub open spec fn heads_before(items: &Vec<Exp>, k: int) -> bool {
    &&& items@.len() > 0
    &&& (k > 0 ==> view_exp(items@[0]) != Value::Symbol("quote"@))
    &&& (k > 1 ==> view_exp(items@[0]) != Value::Symbol("if"@))
    &&& (k > 2 ==> view_exp(items@[0]) != Value::Symbol("define"@))
    &&& (k > 3 ==> view_exp(items@[0]) != Value::Symbol("set!"@))
    &&& (k > 4 ==> view_exp(items@[0]) != Value::Symbol("lambda"@))
}

fn eval_items(items: &Vec<Exp>, env_tree: &mut EnvTree, env_id: usize, f: u64) -> (r: Result<Exp, EvalError>)
    requires
        old(env_tree).wf(),
        env_id < old(env_tree).keys@.len(),
    ensures
        list_outcome(items, *old(env_tree), *final(env_tree), r, env_id, f),
    decreases f, 6int, 0int,
{
    proof {
        lemma_view_seq_all(items@);
    }
    let n = items.len();
    if n == 0 {
        return Err(EvalError::EmptyApplication);
    }
    let head = &items[0];
    if head.is_symbol("quote") {
        if n != 2 {
            return Err(EvalError::ArityMismatch);
        }
        return Ok(items[1].duplicate());
    }
    if head.is_symbol("if") {
        return eval_if(items, env_tree, env_id, f);
    }
    if head.is_symbol("define") {
        return eval_define(items, env_tree, env_id, f);
    }
    if head.is_symbol("set!") {
        return eval_set(items, env_tree, env_id, f);
    }
    if head.is_symbol("lambda") {
        if n != 3 {
            return Err(EvalError::ArityMismatch);
        }
        return match param_list(&items[1]) {
            Some(parameters) => {
                let body = items[2].duplicate();
                Ok(Exp::Procedure(Box::new(Procedure { parameters, body, env: env_id })))
            },
            None => Err(EvalError::TypeMismatch(Kind::List, items[1].kind())),
        };
    }
    eval_call(items, env_tree, env_id, f)
}

fn eval_if(items: &Vec<Exp>, env_tree: &mut EnvTree, env_id: usize, f: u64) -> (r: Result<Exp, EvalError>)
    requires
        old(env_tree).wf(),
        env_id < old(env_tree).keys@.len(),
        heads_before(items, 1),
        heads(items, "if"@),
    ensures
        list_outcome(items, *old(env_tree), *final(env_tree), r, env_id, f),
    decreases f, 5int, 0int,
{
    proof {
        lemma_view_seq_all(items@);
    }
    if items.len() != 4 {
        return Err(EvalError::ArityMismatch);
    }
    let t = eval(&items[1], env_tree, env_id, f)?;
    let b = truth(&t)?;
    if b {
        eval(&items[2], env_tree, env_id, f)
    } else {
        eval(&items[3], env_tree, env_id, f)
    }
}

fn eval_define(items: &Vec<Exp>, env_tree: &mut EnvTree, env_id: usize, f: u64) -> (r: Result<Exp, EvalError>)
    requires
        old(env_tree).wf(),
        env_id < old(env_tree).keys@.len(),
        heads_before(items, 2),
        heads(items, "define"@),
    ensures
        list_outcome(items, *old(env_tree), *final(env_tree), r, env_id, f),
    decreases f, 5int, 0int,
{
    proof {
        lemma_view_seq_all(items@);
    }
    if items.len() != 3 {
        return Err(EvalError::ArityMismatch);
    }
    match &items[1] {
        Exp::Atom(Atom::Symbol(name)) => {
            let v = eval(&items[2], env_tree, env_id, f)?;
            env_tree.bind(env_id, name.clone(), v.duplicate());
            Ok(v)
        },
        other => Err(EvalError::TypeMismatch(Kind::Symbol, other.kind())),
    }
}

fn eval_set(items: &Vec<Exp>, env_tree: &mut EnvTree, env_id: usize, f: u64) -> (r: Result<Exp, EvalError>)
    requires
        old(env_tree).wf(),
        env_id < old(env_tree).keys@.len(),
        heads_before(items, 3),
        heads(items, "set!"@),
    ensures
        list_outcome(items, *old(env_tree), *final(env_tree), r, env_id, f),
    decreases f, 5int, 0int,
{
    proof {
        lemma_view_seq_all(items@);
    }
    if items.len() != 3 {
        return Err(EvalError::ArityMismatch);
    }
    match &items[1] {
        Exp::Atom(Atom::Symbol(name)) => {
            let v = eval(&items[2], env_tree, env_id, f)?;
            match env_tree.owner(env_id, name) {
                Ok(owner) => {
                    env_tree.bind(owner, name.clone(), v);
                    Ok(Exp::bool(true))
                },
                Err(e) => Err(e),
            }
        },
        other => Err(EvalError::TypeMismatch(Kind::Symbol, other.kind())),
    }
}

fn eval_call(items: &Vec<Exp>, env_tree: &mut EnvTree, env_id: usize, f: u64) -> (r: Result<Exp, EvalError>)
    requires
        old(env_tree).wf(),
        env_id < old(env_tree).keys@.len(),
        heads_before(items, 5),
    ensures
        list_outcome(items, *old(env_tree), *final(env_tree), r, env_id, f),
    decreases f, 5int, 0int,
{
    proof {
        lemma_view_seq_all(items@);
    }
    let h = eval(&items[0], env_tree, env_id, f)?;
    if !is_callable(&h) {
        return Err(EvalError::NotCallable);
    }
    let args = eval_args_from(items, 1, env_tree, env_id, f)?;
    apply(&h, args, env_tree, f)
}

/// Evaluates `items[i..]` left to right.
fn eval_args_from(items: &Vec<Exp>, i: usize, env_tree: &mut EnvTree, env_id: usize, fuel: u64) -> (r: Result<Vec<Exp>, EvalError>)
    requires
        old(env_tree).wf(),
        env_id < old(env_tree).keys@.len(),
    ensures
        final(env_tree).wf(),
        final(env_tree).keys@.len() >= old(env_tree).keys@.len(),
        final(env_tree).view() == eval_args(view_seq(items@), i as int, old(env_tree).view(), env_id as nat, fuel as nat).0,
        values_match(r, eval_args(view_seq(items@), i as int, old(env_tree).view(), env_id as nat, fuel as nat).1),
    decreases fuel, 1int, items@.len() - i,
{
    proof {
        lemma_view_seq_all(items@);
    }
    if i >= items.len() {
        assert(view_seq(Seq::<Exp>::empty()) =~= Seq::<Value>::empty());
        return Ok(Vec::new());
    }
    let v = eval(&items[i], env_tree, env_id, fuel)?;
    let mut rest = eval_args_from(items, i + 1, env_tree, env_id, fuel)?;
    let ghost vr = view_seq(rest@);
    let ghost old_r = rest@;
    rest.insert(0, v);
    proof {
        lemma_view_seq_all(rest@);
        lemma_view_seq_all(old_r);
        assert(view_seq(rest@) =~= seq![view_exp(v)] + vr);
    }
    Ok(rest)
}

/// Calls `f` on each of `items[i..]`.
fn map_from(f: &Exp, items: &Vec<Exp>, i: usize, env_tree: &mut EnvTree, fuel: u64) -> (r: Result<Vec<Exp>, EvalError>)
    requires
        old(env_tree).wf(),
    ensures
        final(env_tree).wf(),
        final(env_tree).keys@.len() >= old(env_tree).keys@.len(),
        final(env_tree).view() == map_spec(view_exp(*f), view_seq(items@), i as int, old(env_tree).view(), fuel as nat).0,
        values_match(r, map_spec(view_exp(*f), view_seq(items@), i as int, old(env_tree).view(), fuel as nat).1),
    decreases fuel, 2int, items@.len() - i,
{
    proof {
        lemma_view_seq_all(items@);
    }
    if i >= items.len() {
        assert(view_seq(Seq::<Exp>::empty()) =~= Seq::<Value>::empty());
        return Ok(Vec::new());
    }
    if fuel == 0 {
        return Err(EvalError::DepthExceeded);
    }
    let mut one: Vec<Exp> = Vec::new();
    one.push(items[i].duplicate());
    proof {
        lemma_view_seq_push(Seq::empty(), one@[0]);
        assert(Seq::<Exp>::empty().push(one@[0]) =~= one@);
        assert(view_seq(Seq::<Exp>::empty()) =~= Seq::<Value>::empty());
        assert(view_seq(one@) =~= seq![view_seq(items@)[i as int]]);
    }
    let v = apply(f, one, env_tree, fuel - 1)?;
    let mut rest = map_from(f, items, i + 1, env_tree, fuel)?;
    let ghost vr = view_seq(rest@);
    let ghost old_r = rest@;
    rest.insert(0, v);
    proof {
        lemma_view_seq_all(rest@);
        lemma_view_seq_all(old_r);
        assert(view_seq(rest@) =~= seq![view_exp(v)] + vr);
    }
    Ok(rest)
}

/// Invokes a procedure value on evaluated arguments, as `apply_spec` states.
pub fn apply(h: &Exp, args: Vec<Exp>, env_tree: &mut EnvTree, fuel: u64) -> (r: Result<Exp, EvalError>)
    requires
        old(env_tree).wf(),
    ensures
        final(env_tree).wf(),
        final(env_tree).keys@.len() >= old(env_tree).keys@.len(),
        outcome_matches(*final(env_tree), r, apply_spec(view_exp(*h), view_seq(args@), old(env_tree).view(), fuel as nat)),
    decreases fuel, 3int, 0int,
{
    proof {
        lemma_view_seq_all(args@);
    }
    match h {
        Exp::Procedure(p) => {
            if p.env >= env_tree.keys.len() {
                return Err(EvalError::NotCallable);
            }
            if env_tree.keys.len() >= FRAME_LIMIT {
                return Err(EvalError::ArenaFull);
            }
            let id = Env::insert_into(env_tree, copy_names(&p.parameters), args, Some(p.env));
            let r = eval(&p.body, env_tree, id, fuel);
            assert(env_tree.wf());
            r
        },
        Exp::Function(Builtin::Apply) => {
            if args.len() == 0 {
                return Err(EvalError::ArityMismatch);
            }
            if !is_callable(&args[0]) {
                return Err(EvalError::NotCallable);
            }
            if fuel == 0 {
                return Err(EvalError::DepthExceeded);
            }
            let flat = flatten_args(&args, 1);
            let r = apply(&args[0], flat, env_tree, fuel - 1);
            assert(env_tree.wf());
            r
        },
        Exp::Function(Builtin::MapList) => {
            if args.len() != 2 {
                return Err(EvalError::ArityMismatch);
            }
            if !is_callable(&args[0]) {
                return Err(EvalError::NotCallable);
            }
            match &args[1] {
                Exp::List(l) => {
                    let vs = map_from(&args[0], l, 0, env_tree, fuel)?;
                    Ok(Exp::List(vs))
                },
                other => Err(EvalError::TypeMismatch(Kind::List, other.kind())),
            }
        },
        Exp::Function(Builtin::Print) => {
            let line = render_args(&args);
            env_tree.record(line);
            assert(env_tree.wf());
            let empty: Vec<Exp> = Vec::new();
            assert(view_seq(empty@) =~= Seq::<Value>::empty());
            Ok(Exp::List(empty))
        },
        Exp::Function(b) => call_pure(*b, &args),
        _ => Err(EvalError::NotCallable),
    }
}

impl Procedure {
    pub fn new(parameters: Vec<String>, body: Exp, env: usize) -> (r: Procedure)
        ensures
            r.parameters == parameters,
            r.body == body,
            r.env == env,
    {
        Procedure { parameters, body, env }
    }

    pub open spec fn value(&self) -> Value {
        Value::Closure(view_names(self.parameters@), Box::new(view_exp(self.body)), self.env as nat)
    }

    /// Calls this closure: a new frame under the captured one binds the
    /// parameters, and the body is evaluated there.
    pub fn invoke(&self, env_tree: &mut EnvTree, arguments: Vec<Exp>, fuel: u64) -> (r: Result<Exp, EvalError>)
        requires
            old(env_tree).wf(),
        ensures
            final(env_tree).wf(),
            final(env_tree).keys@.len() >= old(env_tree).keys@.len(),
            outcome_matches(*final(env_tree), r, apply_spec(self.value(), view_seq(arguments@), old(env_tree).view(), fuel as nat)),
    {
        if self.env >= env_tree.keys.len() {
            return Err(EvalError::NotCallable);
        }
        if env_tree.keys.len() >= FRAME_LIMIT {
            return Err(EvalError::ArenaFull);
        }
        let id = Env::insert_into(env_tree, copy_names(&self.parameters), arguments, Some(self.env));
        eval(&self.body, env_tree, id, fuel)
    }
}

} // verus!
