//! The builtin procedures that work on evaluated arguments alone, and the
//! helpers the evaluator shares with them.

use vstd::prelude::*;

use crate::eval::{
    Fault, abs_int, as_num, binary_num, callable, concat_lists, fits, flatten, nums_of, number,
    power, pure_builtin, seq_max, seq_min, trunc_div, truthy, unary,
};
use crate::expr::{
    Atom, Builtin, EvalError, Exp, Kind, Value, copy_list, kind_of, lemma_view_seq_all,
    lemma_view_seq_push, items_equal, value_equal, view_exp, view_seq,
};

verus! {

broadcast use vstd::std_specs::vec::group_vec_axioms, vstd::seq::group_seq_axioms;

pub open spec fn fault_of(e: EvalError) -> Fault {
    match e {
        EvalError::UnboundSymbol(s) => Fault::UnboundSymbol(s@),
        EvalError::EmptyApplication => Fault::EmptyApplication,
        EvalError::NotCallable => Fault::NotCallable,
        EvalError::TypeMismatch(a, b) => Fault::TypeMismatch(a, b),
        EvalError::ArityMismatch => Fault::ArityMismatch,
        EvalError::NumericRange => Fault::NumericRange,
        EvalError::DivisionByZero => Fault::DivisionByZero,
        EvalError::DepthExceeded => Fault::DepthExceeded,
        EvalError::ArenaFull => Fault::ArenaFull,
    }
}

pub open spec fn value_matches(r: Result<Exp, EvalError>, s: Result<Value, Fault>) -> bool {
    match (r, s) {
        (Ok(e), Ok(v)) => view_exp(e) == v,
        (Err(e), Err(f)) => fault_of(e) == f,
        _ => false,
    }
}

pub open spec fn values_match(r: Result<Vec<Exp>, EvalError>, s: Result<Seq<Value>, Fault>) -> bool {
    match (r, s) {
        (Ok(e), Ok(v)) => view_seq(e@) == v,
        (Err(e), Err(f)) => fault_of(e) == f,
        _ => false,
    }
}

pub open spec fn int_matches(r: Result<i64, EvalError>, s: Result<int, Fault>) -> bool {
    match (r, s) {
        (Ok(e), Ok(v)) => e as int == v,
        (Err(e), Err(f)) => fault_of(e) == f,
        _ => false,
    }
}

pub fn number_of(n: i128) -> (r: Result<Exp, EvalError>)
    ensures
        value_matches(r, number(n as int)),
{
    if n < i64::MIN as i128 || n > i64::MAX as i128 {
        Err(EvalError::NumericRange)
    } else {
        Ok(Exp::num(n as i64))
    }
}

pub fn num_arg(e: &Exp) -> (r: Result<i64, EvalError>)
    ensures
        int_matches(r, as_num(view_exp(*e))),
{
    match e {
        Exp::Atom(Atom::Number(n)) => Ok(*n),
        _ => Err(EvalError::TypeMismatch(Kind::Number, e.kind())),
    }
}

pub fn binary_args(args: &Vec<Exp>) -> (r: Result<(i64, i64), EvalError>)
    ensures
        match (r, binary_num(view_seq(args@))) {
            (Ok((a, b)), Ok((x, y))) => a as int == x && b as int == y,
            (Err(e), Err(f)) => fault_of(e) == f,
            _ => false,
        },
{
    proof {
        lemma_view_seq_all(args@);
    }
    if args.len() != 2 {
        return Err(EvalError::ArityMismatch);
    }
    let a = num_arg(&args[0])?;
    let b = num_arg(&args[1])?;
    Ok((a, b))
}

pub fn is_callable(e: &Exp) -> (r: bool)
    ensures
        r == callable(view_exp(*e)),
{
    match e {
        Exp::Function(_) => true,
        Exp::Procedure(_) => true,
        _ => false,
    }
}

pub fn truth(e: &Exp) -> (r: Result<bool, EvalError>)
    ensures
        match (r, truthy(view_exp(*e))) {
            (Ok(a), Ok(b)) => a == b,
            (Err(x), Err(f)) => fault_of(x) == f,
            _ => false,
        },
{
    match e {
        Exp::Atom(Atom::Bool(b)) => Ok(*b),
        Exp::List(l) => {
            proof {
                lemma_view_seq_all(l@);
            }
            Ok(l.len() > 0)
        },
        _ => Err(EvalError::TypeMismatch(Kind::Bool, e.kind())),
    }
}

/// Structural equality, as `value_equal` states it.
pub fn values_equal(a: &Exp, b: &Exp) -> (r: bool)
    ensures
        r == value_equal(view_exp(*a), view_exp(*b)),
    decreases a,
{
    match (a, b) {
        (Exp::Atom(x), Exp::Atom(y)) => match (x, y) {
            (Atom::Symbol(p), Atom::Symbol(q)) => *p == *q,
            (Atom::Number(p), Atom::Number(q)) => *p == *q,
            (Atom::Complex(p1, p2), Atom::Complex(q1, q2)) => *p1 == *q1 && *p2 == *q2,
            (Atom::Bool(p), Atom::Bool(q)) => *p == *q,
            (Atom::String(p), Atom::String(q)) => *p == *q,
            _ => false,
        },
        (Exp::List(x), Exp::List(y)) => lists_equal(x, y),
        (Exp::Atom(_), _) => false,
        (Exp::List(_), _) => false,
        (Exp::Function(_), _) => false,
        (Exp::Procedure(_), _) => false,
    }
}

fn lists_equal(x: &Vec<Exp>, y: &Vec<Exp>) -> (r: bool)
    ensures
        r == items_equal(view_seq(x@), view_seq(y@)),
    decreases x,
{
    proof {
        lemma_view_seq_all(x@);
        lemma_view_seq_all(y@);
    }
    let ghost vx = view_seq(x@);
    let ghost vy = view_seq(y@);
    if x.len() != y.len() {
        return false;
    }
    let mut i: usize = 0;
    assert(items_equal(vx.subrange(0, 0), vy.subrange(0, 0)));
    while i < x.len()
        invariant
            i <= x@.len(),
            x@.len() == y@.len(),
            vx == view_seq(x@),
            vy == view_seq(y@),
            vx.len() == x@.len(),
            vy.len() == y@.len(),
            forall|k: int| 0 <= k < x@.len() ==> #[trigger] vx[k] == view_exp(x@[k]),
            forall|k: int| 0 <= k < y@.len() ==> #[trigger] vy[k] == view_exp(y@[k]),
            items_equal(vx.subrange(0, i as int), vy.subrange(0, i as int)),
        decreases x@.len() - i,
    {
        proof {
            assert(decreases_to!(x => x@[i as int]));
            assert(vx.subrange(0, i + 1).drop_last() =~= vx.subrange(0, i as int));
            assert(vy.subrange(0, i + 1).drop_last() =~= vy.subrange(0, i as int));
        }
        if !values_equal(&x[i], &y[i]) {
            proof {
                lemma_items_prefix(vx, vy, i + 1);
            }
            return false;
        }
        i = i + 1;
    }
    assert(vx.subrange(0, x@.len() as int) =~= vx);
    assert(vy.subrange(0, y@.len() as int) =~= vy);
    true
}

pub proof fn lemma_items_prefix(x: Seq<Value>, y: Seq<Value>, k: int)
    requires
        x.len() == y.len(),
        0 <= k <= x.len(),
        !items_equal(x.subrange(0, k), y.subrange(0, k)),
    ensures
        !items_equal(x, y),
    decreases x.len(),
{
    if k < x.len() {
        assert(x.drop_last().subrange(0, k) =~= x.subrange(0, k));
        assert(y.drop_last().subrange(0, k) =~= y.subrange(0, k));
        lemma_items_prefix(x.drop_last(), y.drop_last(), k);
    } else {
        assert(x.subrange(0, k) =~= x);
        assert(y.subrange(0, k) =~= y);
    }
}

pub proof fn lemma_nums_of_prefix_err(args: Seq<Value>, k: int)
    requires
        0 <= k <= args.len(),
        nums_of(args.subrange(0, k)) is Err,
    ensures
        nums_of(args) == nums_of(args.subrange(0, k)),
    decreases args.len(),
{
    if k < args.len() {
        assert(args.drop_last().subrange(0, k) =~= args.subrange(0, k));
        lemma_nums_of_prefix_err(args.drop_last(), k);
    } else {
        assert(args.subrange(0, k) =~= args);
    }
}

pub proof fn lemma_concat_prefix_err(args: Seq<Value>, k: int)
    requires
        0 <= k <= args.len(),
        concat_lists(args.subrange(0, k)) is Err,
    ensures
        concat_lists(args) == concat_lists(args.subrange(0, k)),
    decreases args.len(),
{
    if k < args.len() {
        assert(args.drop_last().subrange(0, k) =~= args.subrange(0, k));
        lemma_concat_prefix_err(args.drop_last(), k);
    } else {
        assert(args.subrange(0, k) =~= args);
    }
}

/// `min` or `max` over the numbers among `args`.
fn extreme(args: &Vec<Exp>, want_max: bool) -> (r: Result<Exp, EvalError>)
    requires
        args@.len() > 0,
    ensures
        value_matches(r, match nums_of(view_seq(args@)) {
            Ok(ns) => Ok(Value::Number(if want_max { seq_max(ns) } else { seq_min(ns) })),
            Err(e) => Err(e),
        }),
{
    let ghost vs = view_seq(args@);
    proof {
        lemma_view_seq_all(args@);
    }
    let mut m: i64 = 0;
    let mut i: usize = 0;
    let ghost mut ns: Seq<int> = Seq::empty();
    assert(vs.subrange(0, 0) =~= Seq::<Value>::empty());
    while i < args.len()
        invariant
            i <= args@.len(),
            vs == view_seq(args@),
            vs.len() == args@.len(),
            forall|k: int| 0 <= k < args@.len() ==> #[trigger] vs[k] == view_exp(args@[k]),
            nums_of(vs.subrange(0, i as int)) == Ok::<Seq<int>, Fault>(ns),
            ns.len() == i,
            i > 0 ==> m as int == (if want_max { seq_max(ns) } else { seq_min(ns) }),
        decreases args@.len() - i,
    {
        assert(vs.subrange(0, i + 1).drop_last() =~= vs.subrange(0, i as int));
        match num_arg(&args[i]) {
            Err(e) => {
                proof {
                    lemma_nums_of_prefix_err(vs, i + 1);
                }
                return Err(e);
            },
            Ok(n) => {
                proof {
                    assert(ns.push(n as int).drop_last() =~= ns);
                }
                if i == 0 || (want_max && n > m) || (!want_max && n < m) {
                    m = n;
                }
                proof {
                    ns = ns.push(n as int);
                }
                i = i + 1;
            },
        }
    }
    assert(vs.subrange(0, args@.len() as int) =~= vs);
    Ok(Exp::num(m))
}

/// `append`: the concatenation of list arguments.
fn append_lists(args: &Vec<Exp>) -> (r: Result<Exp, EvalError>)
    ensures
        value_matches(r, match concat_lists(view_seq(args@)) {
            Ok(l) => Ok(Value::List(l)),
            Err(e) => Err(e),
        }),
{
    let ghost vs = view_seq(args@);
    proof {
        lemma_view_seq_all(args@);
    }
    let mut out: Vec<Exp> = Vec::new();
    let mut i: usize = 0;
    assert(vs.subrange(0, 0) =~= Seq::<Value>::empty());
    assert(view_seq(out@) =~= Seq::<Value>::empty());
    while i < args.len()
        invariant
            i <= args@.len(),
            vs == view_seq(args@),
            vs.len() == args@.len(),
            forall|k: int| 0 <= k < args@.len() ==> #[trigger] vs[k] == view_exp(args@[k]),
            concat_lists(vs.subrange(0, i as int)) == Ok::<Seq<Value>, Fault>(view_seq(out@)),
        decreases args@.len() - i,
    {
        assert(vs.subrange(0, i + 1).drop_last() =~= vs.subrange(0, i as int));
        match &args[i] {
            Exp::List(l) => {
                let ghost before = view_seq(out@);
                let items = copy_list(l);
                proof {
                    lemma_view_seq_all(items@);
                }
                let mut j: usize = 0;
                while j < items.len()
                    invariant
                        j <= items@.len(),
                        view_seq(items@).len() == items@.len(),
                        forall|k: int| 0 <= k < items@.len() ==> #[trigger] view_seq(items@)[k] == view_exp(items@[k]),
                        view_seq(out@) == before + view_seq(items@).subrange(0, j as int),
                    decreases items@.len() - j,
                {
                    let e = items[j].duplicate();
                    proof {
                        lemma_view_seq_push(out@, e);
                    }
                    out.push(e);
                    j = j + 1;
                    assert(view_seq(out@) =~= before + view_seq(items@).subrange(0, j as int));
                }
                assert(view_seq(items@).subrange(0, items@.len() as int) =~= view_seq(items@));
                i = i + 1;
            },
            _ => {
                proof {
                    lemma_concat_prefix_err(vs, i + 1);
                }
                return Err(EvalError::TypeMismatch(Kind::List, args[i].kind()));
            },
        }
    }
    assert(vs.subrange(0, args@.len() as int) =~= vs);
    Ok(Exp::List(out))
}

/// The arguments of `apply` from position `from` on, lists spliced in.
pub fn flatten_args(args: &Vec<Exp>, from: usize) -> (r: Vec<Exp>)
    requires
        from <= args@.len(),
    ensures
        view_seq(r@) == flatten(view_seq(args@).subrange(from as int, args@.len() as int)),
{
    let ghost vs = view_seq(args@).subrange(from as int, args@.len() as int);
    proof {
        lemma_view_seq_all(args@);
    }
    let mut out: Vec<Exp> = Vec::new();
    let mut i: usize = from;
    assert(vs.subrange(0, 0) =~= Seq::<Value>::empty());
    assert(view_seq(out@) =~= Seq::<Value>::empty());
    while i < args.len()
        invariant
            from <= i <= args@.len(),
            vs == view_seq(args@).subrange(from as int, args@.len() as int),
            view_seq(args@).len() == args@.len(),
            forall|k: int| 0 <= k < args@.len() ==> #[trigger] view_seq(args@)[k] == view_exp(args@[k]),
            flatten(vs.subrange(0, i - from)) == view_seq(out@),
        decreases args@.len() - i,
    {
        assert(vs.subrange(0, i + 1 - from).drop_last() =~= vs.subrange(0, i - from));
        assert(vs[i - from] == view_exp(args@[i as int]));
        match &args[i] {
            Exp::List(l) => {
                let ghost before = view_seq(out@);
                let items = copy_list(l);
                proof {
                    lemma_view_seq_all(items@);
                }
                let mut j: usize = 0;
                while j < items.len()
                    invariant
                        j <= items@.len(),
                        view_seq(items@).len() == items@.len(),
                        forall|k: int| 0 <= k < items@.len() ==> #[trigger] view_seq(items@)[k] == view_exp(items@[k]),
                        view_seq(out@) == before + view_seq(items@).subrange(0, j as int),
                    decreases items@.len() - j,
                {
                    let e = items[j].duplicate();
                    proof {
                        lemma_view_seq_push(out@, e);
                    }
                    out.push(e);
                    j = j + 1;
                    assert(view_seq(out@) =~= before + view_seq(items@).subrange(0, j as int));
                }
                assert(view_seq(items@).subrange(0, items@.len() as int) =~= view_seq(items@));
            },
            other => {
                let e = other.duplicate();
                proof {
                    lemma_view_seq_push(out@, e);
                }
                out.push(e);
            },
        }
        i = i + 1;
    }
    assert(vs.subrange(0, args@.len() - from) =~= vs);
    out
}

pub proof fn lemma_power_pos(b: int, e: nat)
    requires
        b >= 1,
    ensures
        power(b, e) >= 1,
    decreases e,
{
    if e > 0 {
        lemma_power_pos(b, (e - 1) as nat);
        let p = power(b, (e - 1) as nat);
        assert(b * p >= 1) by (nonlinear_arith)
            requires
                b >= 1,
                p >= 1,
        ;
    }
}

pub proof fn lemma_power_mono(b: int, k: nat, e: nat)
    requires
        b >= 1,
        k <= e,
    ensures
        power(b, k) <= power(b, e),
    decreases e,
{
    if k < e {
        lemma_power_mono(b, k, (e - 1) as nat);
        lemma_power_pos(b, (e - 1) as nat);
        let p = power(b, (e - 1) as nat);
        assert(p <= b * p) by (nonlinear_arith)
            requires
                b >= 1,
                p >= 1,
        ;
    }
}

pub proof fn lemma_power_abs(b: int, e: nat)
    ensures
        abs_int(power(b, e)) == power(abs_int(b), e),
    decreases e,
{
    if e > 0 {
        lemma_power_abs(b, (e - 1) as nat);
        let p = power(b, (e - 1) as nat);
        assert(abs_int(b * p) == abs_int(b) * abs_int(p)) by (nonlinear_arith);
    }
}

pub proof fn lemma_power_unit(b: int, e: nat)
    requires
        b == 1 || b == -1,
    ensures
        power(b, e) == if b == 1 || e % 2 == 0 { 1int } else { -1int },
    decreases e,
{
    if e > 0 {
        lemma_power_unit(b, (e - 1) as nat);
    }
}

/// `expt`: `x` to the power `y`.
fn expt(x: i64, y: i64) -> (r: Result<Exp, EvalError>)
    ensures
        value_matches(r, if y < 0 { Err(Fault::NumericRange) } else { number(power(x as int, y as nat)) }),
{
    if y < 0 {
        return Err(EvalError::NumericRange);
    }
    if x == 0 {
        assert(y > 0 ==> power(0, y as nat) == 0 * power(0, (y - 1) as nat));
        return Ok(Exp::num(if y == 0 { 1 } else { 0 }));
    }
    if x == 1 || x == -1 {
        proof {
            lemma_power_unit(x as int, y as nat);
        }
        return Ok(Exp::num(if x == 1 || y % 2 == 0 { 1 } else { -1 }));
    }
    let xb = x as i128;
    let mut acc: i128 = 1;
    let mut k: i64 = 0;
    while k < y
        invariant
            0 <= k <= y,
            xb == x as int,
            x != 0 && x != 1 && x != -1,
            acc as int == power(x as int, k as nat),
            abs_int(acc as int) <= 0x8000_0000_0000_0000,
        decreases y - k,
    {
        let ghost prev = acc as int;
        assert(abs_int(prev * xb) == abs_int(prev) * abs_int(xb as int)) by (nonlinear_arith);
        assert(abs_int(prev) * abs_int(xb as int) <= 0x8000_0000_0000_0000 * 0x8000_0000_0000_0000) by (nonlinear_arith)
            requires
                abs_int(prev) <= 0x8000_0000_0000_0000,
                abs_int(xb as int) <= 0x8000_0000_0000_0000,
        ;
        acc = acc * xb;
        k = k + 1;
        assert(power(x as int, k as nat) == x * power(x as int, (k - 1) as nat));
        assert(power(x as int, (k - 1) as nat) == prev);
        assert(acc as int == prev * xb);
        assert(prev * xb == xb * prev) by (nonlinear_arith);
        assert(acc as int == power(x as int, k as nat));
        if acc > 0x8000_0000_0000_0000i128 || acc < -0x8000_0000_0000_0000i128 {
            proof {
                lemma_power_abs(x as int, k as nat);
                lemma_power_abs(x as int, y as nat);
                lemma_power_mono(abs_int(x as int), k as nat, y as nat);
            }
            return Err(EvalError::NumericRange);
        }
    }
    number_of(acc)
}

/// The builtins that neither re-enter evaluation nor print, as
/// `pure_builtin` states them.
pub fn call_pure(b: Builtin, args: &Vec<Exp>) -> (r: Result<Exp, EvalError>)
    requires
        b != Builtin::Apply,
        b != Builtin::MapList,
        b != Builtin::Print,
    ensures
        value_matches(r, pure_builtin(b, view_seq(args@))),
{
    let ghost vs = view_seq(args@);
    proof {
        lemma_view_seq_all(args@);
    }
    let n = args.len();
    match b {
        Builtin::Add | Builtin::Sub | Builtin::Mul | Builtin::Div | Builtin::Lt | Builtin::Le
        | Builtin::Gt | Builtin::Ge | Builtin::NumEq | Builtin::Expt => {
            let (x, y) = binary_args(args)?;
            let (p, q) = (x as i128, y as i128);
            match b {
                Builtin::Add => number_of(p + q),
                Builtin::Sub => number_of(p - q),
                Builtin::Mul => {
                    assert(-0x4000_0000_0000_0000_0000_0000_0000_0000 <= p * q <= 0x4000_0000_0000_0000_0000_0000_0000_0000) by (nonlinear_arith)
                        requires
                            -0x8000_0000_0000_0000 <= p <= 0x7fff_ffff_ffff_ffff,
                            -0x8000_0000_0000_0000 <= q <= 0x7fff_ffff_ffff_ffff,
                    ;
                    number_of(p * q)
                },
                Builtin::Div => {
                    if q == 0 {
                        Err(EvalError::DivisionByZero)
                    } else {
                        let ua: u128 = if p < 0 { (-p) as u128 } else { p as u128 };
                        let ub: u128 = if q < 0 { (-q) as u128 } else { q as u128 };
                        let m = ua / ub;
                        assert(m <= ua) by (nonlinear_arith)
                            requires
                                m == ua / ub,
                                ub >= 1,
                        ;
                        let t: i128 = if (p < 0) != (q < 0) { -(m as i128) } else { m as i128 };
                        number_of(t)
                    }
                },
                Builtin::Lt => Ok(Exp::bool(x < y)),
                Builtin::Le => Ok(Exp::bool(x <= y)),
                Builtin::Gt => Ok(Exp::bool(x > y)),
                Builtin::Ge => Ok(Exp::bool(x >= y)),
                Builtin::NumEq => Ok(Exp::bool(x == y)),
                _ => expt(x, y),
            }
        },
        Builtin::Abs | Builtin::Round => {
            if n != 1 {
                return Err(EvalError::ArityMismatch);
            }
            let x = num_arg(&args[0])?;
            if b == Builtin::Round {
                Ok(Exp::num(x))
            } else {
                number_of(if x < 0 { -(x as i128) } else { x as i128 })
            }
        },
        Builtin::Min | Builtin::Max => {
            if n == 0 {
                return Err(EvalError::ArityMismatch);
            }
            extreme(args, b == Builtin::Max)
        },
        Builtin::Equal => {
            if n != 2 {
                return Err(EvalError::ArityMismatch);
            }
            Ok(Exp::bool(values_equal(&args[0], &args[1])))
        },
        Builtin::List => {
            let l = copy_list(args);
            Ok(Exp::List(l))
        },
        Builtin::Append => append_lists(args),
        Builtin::Cons => {
            if n != 2 {
                return Err(EvalError::ArityMismatch);
            }
            match &args[1] {
                Exp::List(l) => {
                    let tail = copy_list(l);
                    let mut out: Vec<Exp> = Vec::new();
                    out.push(args[0].duplicate());
                    let mut j: usize = 0;
                    proof {
                        lemma_view_seq_all(tail@);
                        lemma_view_seq_push(Seq::empty(), out@[0]);
                        assert(Seq::<Exp>::empty().push(out@[0]) =~= out@);
                        assert(view_seq(Seq::<Exp>::empty()) =~= Seq::<Value>::empty());
                    }
                    while j < tail.len()
                        invariant
                            j <= tail@.len(),
                            n == 2,
                            args@.len() == 2,
                            view_seq(tail@).len() == tail@.len(),
                            forall|k: int| 0 <= k < tail@.len() ==> #[trigger] view_seq(tail@)[k] == view_exp(tail@[k]),
                            view_seq(out@) == seq![vs[0]] + view_seq(tail@).subrange(0, j as int),
                        decreases tail@.len() - j,
                    {
                        let e = tail[j].duplicate();
                        proof {
                            lemma_view_seq_push(out@, e);
                        }
                        out.push(e);
                        j = j + 1;
                        assert(view_seq(out@) =~= seq![vs[0]] + view_seq(tail@).subrange(0, j as int));
                    }
                    assert(view_seq(tail@).subrange(0, tail@.len() as int) =~= view_seq(tail@));
                    Ok(Exp::List(out))
                },
                other => Err(EvalError::TypeMismatch(Kind::List, other.kind())),
            }
        },
        Builtin::Car | Builtin::Cdr | Builtin::Length | Builtin::IsNull => {
            if n != 1 {
                return Err(EvalError::ArityMismatch);
            }
            match &args[0] {
                Exp::List(l) => {
                    proof {
                        lemma_view_seq_all(l@);
                    }
                    match b {
                        Builtin::Car => {
                            if l.len() == 0 {
                                Err(EvalError::TypeMismatch(Kind::List, Kind::List))
                            } else {
                                Ok(l[0].duplicate())
                            }
                        },
                        Builtin::Cdr => {
                            let mut out: Vec<Exp> = Vec::new();
                            let mut j: usize = 1;
                            let ghost vl = view_seq(l@);
                            assert(view_seq(out@) =~= Seq::<Value>::empty());
                            while j < l.len()
                                invariant
                                    1 <= j <= l@.len() || (j == 1 && l@.len() == 0),
                                    vl == view_seq(l@),
                                    vl.len() == l@.len(),
                                    forall|k: int| 0 <= k < l@.len() ==> #[trigger] vl[k] == view_exp(l@[k]),
                                    view_seq(out@) == vl.subrange(1, j as int) || (j == 1 && l@.len() == 0),
                                    l@.len() == 0 ==> out@.len() == 0,
                                decreases l@.len() - j,
                            {
                                let e = l[j].duplicate();
                                proof {
                                    lemma_view_seq_push(out@, e);
                                }
                                out.push(e);
                                j = j + 1;
                                assert(view_seq(out@) =~= vl.subrange(1, j as int));
                            }
                            proof {
                                if l@.len() == 0 {
                                    assert(view_seq(out@) =~= vl);
                                }
                            }
                            Ok(Exp::List(out))
                        },
                        Builtin::Length => number_of(l.len() as i128),
                        _ => Ok(Exp::bool(l.len() == 0)),
                    }
                },
                other => Err(EvalError::TypeMismatch(Kind::List, other.kind())),
            }
        },
        Builtin::IsList | Builtin::IsNumber | Builtin::IsSymbol | Builtin::IsProcedure | Builtin::Not => {
            if n != 1 {
                return Err(EvalError::ArityMismatch);
            }
            let a = &args[0];
            match b {
                Builtin::IsList => Ok(Exp::bool(a.kind() == Kind::List)),
                Builtin::IsNumber => Ok(Exp::bool(a.kind() == Kind::Number)),
                Builtin::IsSymbol => Ok(Exp::bool(a.kind() == Kind::Symbol)),
                Builtin::IsProcedure => Ok(Exp::bool(is_callable(a))),
                _ => {
                    let t = truth(a)?;
                    Ok(Exp::bool(!t))
                },
            }
        },
        _ => {
            if n == 0 {
                return Err(EvalError::ArityMismatch);
            }
            Ok(args[n - 1].duplicate())
        },
    }
}

} // verus!
