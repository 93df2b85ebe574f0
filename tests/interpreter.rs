use repl::env::{Env, EnvTree};
use repl::expr::{Atom, Error, EvalError, Exp, Kind, LexError, ParseError, Procedure};
use repl::reader::{in_quotes, read_from_tokens, InPort};
use repl::render::to_string;
use repl::session::{run_form, run_line};

const DEPTH: u64 = 1000;

fn one(tree: &mut EnvTree, line: &str) -> Result<String, Error> {
    let mut results = run_line(tree, line, DEPTH);
    assert_eq!(results.len(), 1, "one form in {line:?}");
    results.remove(0)
}

fn ok(tree: &mut EnvTree, line: &str) -> String {
    match one(tree, line) {
        Ok(s) => s,
        Err(e) => panic!("{line:?} failed: {e:?}"),
    }
}

#[test]
fn adds_two_numbers() {
    let mut t = EnvTree::standard();
    assert_eq!(ok(&mut t, "(+ 1 2)"), "3");
}

#[test]
fn define_then_square() {
    let mut t = EnvTree::standard();
    assert_eq!(ok(&mut t, "(define x 10)"), "10");
    assert_eq!(ok(&mut t, "(* x x)"), "100");
}

#[test]
fn if_picks_consequent() {
    let mut t = EnvTree::standard();
    assert_eq!(ok(&mut t, "(if (> 3 2) 1 0)"), "1");
    assert_eq!(ok(&mut t, "(if (< 3 2) 1 0)"), "0");
}

#[test]
fn lambda_application() {
    let mut t = EnvTree::standard();
    assert_eq!(ok(&mut t, "((lambda (x) (* x x)) 5)"), "25");
}

#[test]
fn car_of_list() {
    let mut t = EnvTree::standard();
    assert_eq!(ok(&mut t, "(car (list 1 2 3))"), "1");
}

#[test]
fn shadowing_keeps_outer_binding() {
    let mut t = EnvTree::standard();
    assert_eq!(ok(&mut t, "(define x 1)"), "1");
    assert_eq!(ok(&mut t, "((lambda (x) x) 2)"), "2");
    assert_eq!(ok(&mut t, "x"), "1");
}

#[test]
fn set_in_closure_is_visible_outside() {
    let mut t = EnvTree::standard();
    assert_eq!(ok(&mut t, "(define x 1)"), "1");
    assert_eq!(ok(&mut t, "((lambda () (set! x 2)))"), "#t");
    assert_eq!(ok(&mut t, "x"), "2");
}

#[test]
fn define_in_closure_does_not_leak() {
    let mut t = EnvTree::standard();
    assert_eq!(ok(&mut t, "(define x 1)"), "1");
    assert_eq!(ok(&mut t, "((lambda () (define x 5)))"), "5");
    assert_eq!(ok(&mut t, "x"), "1");
}

#[test]
fn unbound_symbol_then_session_goes_on() {
    let mut t = EnvTree::standard();
    match one(&mut t, "(y 1 2)") {
        Err(Error::Eval(EvalError::UnboundSymbol(s))) => assert_eq!(s, "y"),
        other => panic!("unexpected {other:?}"),
    }
    assert_eq!(ok(&mut t, "(+ 1 2)"), "3");
    assert_eq!(ok(&mut t, "(define y 4)"), "4");
    assert_eq!(ok(&mut t, "y"), "4");
}

#[test]
fn set_of_unbound_fails() {
    let mut t = EnvTree::standard();
    assert!(matches!(one(&mut t, "(set! z 1)"), Err(Error::Eval(EvalError::UnboundSymbol(_)))));
}

#[test]
fn arithmetic_tree_left_to_right() {
    let mut t = EnvTree::standard();
    assert_eq!(ok(&mut t, "(- (* 2 3) (/ 7 2))"), "3");
    assert_eq!(ok(&mut t, "(/ (+ 10 -4) (- 1 3))"), "-3");
    assert_eq!(ok(&mut t, "(/ -7 2)"), "-3");
}

#[test]
fn quoted_data_round_trips() {
    let mut t = EnvTree::standard();
    let shown = ok(&mut t, "(quote (a 1 \"s\" #t (b #f) ()))");
    assert_eq!(shown, "(a 1 \"s\" #t (b #f) ())");
    let again = ok(&mut t, &format!("(quote {shown})"));
    assert_eq!(again, shown);
}

#[test]
fn quote_shorthands() {
    let mut t = EnvTree::standard();
    assert_eq!(ok(&mut t, "'(1 2)"), "(1 2)");
    assert_eq!(ok(&mut t, "'`x"), "(quasiquote x)");
    assert_eq!(ok(&mut t, "',x"), "(unquote x)");
    assert_eq!(ok(&mut t, "',@x"), "(unquote-splicing x)");
}

#[test]
fn several_forms_on_one_line() {
    let mut t = EnvTree::standard();
    let r = run_line(&mut t, "(define a 2) (+ a 3) ; comment\n(* a a)", DEPTH);
    let texts: Vec<String> = r.into_iter().map(|x| x.unwrap()).collect();
    assert_eq!(texts, vec!["2", "5", "4"]);
}

#[test]
fn first_failure_ends_the_line() {
    let mut t = EnvTree::standard();
    let r = run_line(&mut t, "(+ 1 1) (car 5) (+ 2 2)", DEPTH);
    assert_eq!(r.len(), 2);
    assert_eq!(r[0].as_ref().unwrap(), "2");
    assert!(matches!(r[1], Err(Error::Eval(EvalError::TypeMismatch(Kind::List, Kind::Number)))));
}

#[test]
fn empty_line_gives_nothing() {
    let mut t = EnvTree::standard();
    assert!(run_line(&mut t, "   ; only a comment", DEPTH).is_empty());
}

#[test]
fn lex_and_parse_errors() {
    let mut t = EnvTree::standard();
    assert!(matches!(one(&mut t, ")"), Err(Error::Lex(LexError::UnexpectedCloseParen))));
    assert!(matches!(one(&mut t, "\"abc"), Err(Error::Lex(LexError::UnterminatedString))));
    assert!(matches!(one(&mut t, "(+ 1"), Err(Error::Parse(ParseError::UnexpectedEof))));
    assert!(matches!(one(&mut t, "'"), Err(Error::Parse(ParseError::UnexpectedEof))));
}

#[test]
fn evaluation_errors() {
    let mut t = EnvTree::standard();
    assert!(matches!(one(&mut t, "()"), Err(Error::Eval(EvalError::EmptyApplication))));
    assert!(matches!(one(&mut t, "(1 2)"), Err(Error::Eval(EvalError::NotCallable))));
    assert!(matches!(one(&mut t, "(if 1 2 3)"), Err(Error::Eval(EvalError::TypeMismatch(Kind::Bool, Kind::Number)))));
    assert!(matches!(one(&mut t, "(quote)"), Err(Error::Eval(EvalError::ArityMismatch))));
    assert!(matches!(one(&mut t, "(+ 1)"), Err(Error::Eval(EvalError::ArityMismatch))));
    assert!(matches!(one(&mut t, "(* 9223372036854775807 2)"), Err(Error::Eval(EvalError::NumericRange))));
    assert!(matches!(one(&mut t, "(/ 1 0)"), Err(Error::Eval(EvalError::DivisionByZero))));
    assert!(matches!(one(&mut t, "(+ \"a\" 1)"), Err(Error::Eval(EvalError::TypeMismatch(Kind::Number, Kind::String)))));
}

#[test]
fn depth_budget_is_reported() {
    let mut t = EnvTree::standard();
    assert_eq!(ok(&mut t, "(define loop (lambda (n) (loop n)))"), "<procedure>");
    assert!(matches!(one(&mut t, "(loop 1)"), Err(Error::Eval(EvalError::DepthExceeded))));
    let r = run_line(&mut t, "(+ 1 (+ 1 1))", 2);
    assert!(matches!(r[0], Err(Error::Eval(EvalError::DepthExceeded))));
}

#[test]
fn recursion_through_define() {
    let mut t = EnvTree::standard();
    ok(&mut t, "(define fact (lambda (n) (if (<= n 1) 1 (* n (fact (- n 1))))))");
    assert_eq!(ok(&mut t, "(fact 10)"), "3628800");
}

#[test]
fn closures_capture_their_frame() {
    let mut t = EnvTree::standard();
    ok(&mut t, "(define make (lambda (n) (lambda (k) (+ n k))))");
    ok(&mut t, "(define add5 (make 5))");
    assert_eq!(ok(&mut t, "(add5 10)"), "15");
    ok(&mut t, "(define counter (lambda (c) (lambda () (begin (set! c (+ c 1)) c))))");
    ok(&mut t, "(define tick (counter 0))");
    assert_eq!(ok(&mut t, "(tick)"), "1");
    assert_eq!(ok(&mut t, "(tick)"), "2");
}

#[test]
fn list_builtins() {
    let mut t = EnvTree::standard();
    assert_eq!(ok(&mut t, "(cdr (list 1 2 3))"), "(2 3)");
    assert_eq!(ok(&mut t, "(cdr (list))"), "()");
    assert_eq!(ok(&mut t, "(cons 0 (list 1 2))"), "(0 1 2)");
    assert_eq!(ok(&mut t, "(append (list 1) (list) (list 2 3))"), "(1 2 3)");
    assert_eq!(ok(&mut t, "(length (list 1 2 3))"), "3");
    assert_eq!(ok(&mut t, "(null? (list))"), "#t");
    assert_eq!(ok(&mut t, "(null? (list 1))"), "#f");
    assert_eq!(ok(&mut t, "(list? (list 1))"), "#t");
    assert_eq!(ok(&mut t, "(list? 1)"), "#f");
    assert!(matches!(one(&mut t, "(car (list))"), Err(Error::Eval(EvalError::TypeMismatch(Kind::List, Kind::List)))));
}

#[test]
fn numeric_builtins() {
    let mut t = EnvTree::standard();
    assert_eq!(ok(&mut t, "(abs -7)"), "7");
    assert_eq!(ok(&mut t, "(expt 2 10)"), "1024");
    assert_eq!(ok(&mut t, "(expt -2 63)"), "-9223372036854775808");
    assert!(matches!(one(&mut t, "(expt 2 63)"), Err(Error::Eval(EvalError::NumericRange))));
    assert!(matches!(one(&mut t, "(expt 3 -1)"), Err(Error::Eval(EvalError::NumericRange))));
    assert_eq!(ok(&mut t, "(expt 5 0)"), "1");
    assert_eq!(ok(&mut t, "(round 4)"), "4");
    assert_eq!(ok(&mut t, "(min 3 1 2)"), "1");
    assert_eq!(ok(&mut t, "(max 3 1 2)"), "3");
    assert_eq!(ok(&mut t, "(= 2 2)"), "#t");
    assert_eq!(ok(&mut t, "(<= 2 2)"), "#t");
    assert_eq!(ok(&mut t, "(>= 1 2)"), "#f");
    assert!(matches!(one(&mut t, "(min)"), Err(Error::Eval(EvalError::ArityMismatch))));
}

#[test]
fn predicates_and_equality() {
    let mut t = EnvTree::standard();
    assert_eq!(ok(&mut t, "(number? 1)"), "#t");
    assert_eq!(ok(&mut t, "(symbol? 'a)"), "#t");
    assert_eq!(ok(&mut t, "(procedure? car)"), "#t");
    assert_eq!(ok(&mut t, "(procedure? (lambda () 1))"), "#t");
    assert_eq!(ok(&mut t, "(procedure? 1)"), "#f");
    assert_eq!(ok(&mut t, "(equal? (list 1 (list 2)) (list 1 (list 2)))"), "#t");
    assert_eq!(ok(&mut t, "(equal? (list 1 2) (list 1 3))"), "#f");
    assert_eq!(ok(&mut t, "(equal? car car)"), "#f");
    assert_eq!(ok(&mut t, "(not #f)"), "#t");
    assert_eq!(ok(&mut t, "(not (list))"), "#t");
    assert_eq!(ok(&mut t, "(if (list 1) 'yes 'no)"), "yes");
}

#[test]
fn higher_order_builtins() {
    let mut t = EnvTree::standard();
    assert_eq!(ok(&mut t, "(map (lambda (x) (* x x)) (list 1 2 3))"), "(1 4 9)");
    assert_eq!(ok(&mut t, "(apply + (list 1 2))"), "3");
    assert_eq!(ok(&mut t, "(apply + 1 2)"), "3");
    assert_eq!(ok(&mut t, "(begin 1 2 3)"), "3");
}

#[test]
fn print_records_a_line() {
    let mut t = EnvTree::standard();
    assert_eq!(ok(&mut t, "(print 1 \"a\" (list 2))"), "()");
    assert_eq!(t.printed, vec!["1 \"a\" (2)".to_string()]);
}

#[test]
fn literals_are_classified() {
    let mut t = EnvTree::standard();
    assert_eq!(ok(&mut t, "#t"), "#t");
    assert_eq!(ok(&mut t, "\"hi there\""), "\"hi there\"");
    assert_eq!(ok(&mut t, "+42"), "42");
    assert_eq!(ok(&mut t, "1+2i"), "1+2i");
    assert_eq!(ok(&mut t, "3-4i"), "3-4i");
    assert_eq!(ok(&mut t, "(number? 1+2i)"), "#f");
    assert!(matches!(one(&mut t, "99999999999999999999"), Err(Error::Eval(EvalError::UnboundSymbol(_)))));
}

#[test]
fn tokens_of_a_port() {
    let mut port = InPort::new("(a ,@b 'c \"s t\") ; x\n  `d");
    let mut tokens = Vec::new();
    while let Some(tok) = port.next_token().unwrap() {
        tokens.push(tok);
    }
    assert_eq!(tokens, vec!["(", "a", ",@", "b", "'", "c", "\"s t\"", ")", "`", "d"]);
}

#[test]
fn quote_markers() {
    assert!(in_quotes("'"));
    assert!(in_quotes("`"));
    assert!(in_quotes(","));
    assert!(in_quotes(",@"));
    assert!(!in_quotes("@"));
    assert!(!in_quotes("quote"));
}

#[test]
fn frames_bind_and_resolve() {
    let mut tree = EnvTree::standard();
    let child = Env::insert_into(&mut tree, vec!["a".to_string(), "b".to_string()], vec![Exp::num(1)], Some(0));
    assert_eq!(child, 1);
    let frame = tree.frame(child);
    assert_eq!(to_string(&frame.get(&"a".to_string()).unwrap()), "1");
    assert!(frame.get(&"b".to_string()).is_none());
    assert_eq!(to_string(&frame.resolve(&tree, &"car".to_string()).unwrap()), "<function>");
    assert_eq!(frame.find(&tree, &"car".to_string(), child).unwrap(), 0);
    assert_eq!(frame.find(&tree, &"a".to_string(), child).unwrap(), child);
    assert!(matches!(frame.resolve(&tree, &"zz".to_string()), Err(EvalError::UnboundSymbol(_))));
    let mut e = Env::empty(None);
    e.insert("k".to_string(), Exp::num(1));
    e.insert("k".to_string(), Exp::num(2));
    assert_eq!(e.symbols.len(), 1);
    assert_eq!(to_string(&e.get(&"k".to_string()).unwrap()), "2");
}

#[test]
fn procedure_invocation() {
    let mut tree = EnvTree::standard();
    let body = Exp::List(vec![
        Exp::Atom(Atom::Symbol("*".to_string())),
        Exp::Atom(Atom::Symbol("n".to_string())),
        Exp::num(3),
    ]);
    let p = Procedure::new(vec!["n".to_string()], body, 0);
    let r = p.invoke(&mut tree, vec![Exp::num(7)], DEPTH).unwrap();
    assert_eq!(to_string(&r), "21");
}

fn toks(v: &[&str]) -> Vec<String> {
    v.iter().map(|s| s.to_string()).collect()
}

#[test]
fn reading_from_a_token_vector() {
    let mut ts = toks(&["(", "+", "1", "(", "f", "#t", ")", ")", "x"]);
    let e = read_from_tokens(&mut ts).unwrap();
    assert_eq!(to_string(&e), "(+ 1 (f #t))");
    assert_eq!(ts, toks(&["x"]));
    let e = read_from_tokens(&mut ts).unwrap();
    assert_eq!(to_string(&e), "x");
    assert!(ts.is_empty());
    assert!(matches!(read_from_tokens(&mut ts), Err(Error::Parse(ParseError::UnexpectedEof))));
    let mut bad = toks(&[")", "1"]);
    assert!(matches!(read_from_tokens(&mut bad), Err(Error::Lex(LexError::UnexpectedCloseParen))));
    assert_eq!(bad.len(), 2);
    let mut open = toks(&["(", "1"]);
    assert!(matches!(read_from_tokens(&mut open), Err(Error::Parse(ParseError::UnexpectedEof))));
    let mut quoted = toks(&["'", "a"]);
    assert_eq!(to_string(&read_from_tokens(&mut quoted).unwrap()), "(quote a)");
}

#[test]
fn complex_parts_at_the_limit_print() {
    let mut t = EnvTree::standard();
    assert_eq!(ok(&mut t, "-9223372036854775808+1i"), "-9223372036854775808+1i");
    assert_eq!(ok(&mut t, "1+-9223372036854775808i"), "1-9223372036854775808i");
    assert_eq!(ok(&mut t, "0+0i"), "0+0i");
    assert_eq!(ok(&mut t, "2j"), "0+2i");
}

#[test]
fn forms_run_one_at_a_time() {
    let mut t = EnvTree::standard();
    let mut port = InPort::new("(print 7) (+ 1 2) (y 1 2) 5");
    assert_eq!(run_form(&mut port, &mut t, DEPTH).unwrap().unwrap(), "()");
    assert_eq!(t.printed, vec!["7".to_string()]);
    assert_eq!(run_form(&mut port, &mut t, DEPTH).unwrap().unwrap(), "3");
    let start = port.pos;
    assert!(matches!(run_form(&mut port, &mut t, DEPTH), Some(Err(Error::Eval(EvalError::UnboundSymbol(_))))));
    let form: String = port.text[start..port.pos].iter().collect();
    assert_eq!(form.trim(), "(y 1 2)");
    assert_eq!(run_form(&mut port, &mut t, DEPTH).unwrap().unwrap(), "5");
    assert!(run_form(&mut port, &mut t, DEPTH).is_none());
}
