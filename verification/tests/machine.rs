use steplisp::exec::{eval, eval_s, State, STEP_BUDGET};
use steplisp::val::{p, p_all, Val};

fn num(x: f32) -> Val {
    Val::Num(x.to_bits())
}

fn sym(name: &str) -> Val {
    Val::Sym(name.to_string())
}

#[test]
fn printed_form_parses_back() {
    for text in [
        "(a b c)",
        "(define (fib n) (if (< n 2) n (+ (fib (- n 1)) (fib (- n 2)))))",
        "(1 2.5 -3 \"text\" (nested (deeper)) ())",
        "54.6",
        "10000",
        "0.1",
        "-0.25",
        "sym",
        "\"a string\"",
    ] {
        let value = p(text);
        assert_eq!(p(&value.to_string()), value);
    }
    let closure = eval(p("(lambda (x) (+ x 1))"));
    assert_eq!(closure, p("(lambda (x) (+ x 1))"));
}

#[test]
fn printed_forms() {
    assert_eq!(p("(a \"b\" 1.5 (c))").to_string(), "(a \"b\" 1.5 (c))");
    assert_eq!(Val::nil().to_string(), "()");
    assert_eq!(num(54.6).to_string(), "54.6");
    assert_eq!(num(3.0).to_string(), "3");
    assert_eq!(num(100000.0).to_string(), "100000");
    assert_eq!(num(-0.5).to_string(), "-0.5");
    assert_eq!(Val::Message("ask".to_string()).to_string(), "ask");
    let mut state = State::new();
    let special = eval_s(&p("quote"), &mut state);
    assert_eq!(special.to_string(), "<special>");
    let builtin = eval_s(&p("car"), &mut state);
    assert_eq!(builtin.to_string(), "<builtin>");
    let closure = eval_s(&p("(lambda (x) x)"), &mut state);
    assert!(matches!(closure, Val::Lambda(false, _, _)));
    assert_eq!(closure.to_string(), "(lambda (x) x)");
    assert_eq!(p(&closure.to_string()), closure);
    eval_s(&p("(define (twice f x) (f (f x)))"), &mut state);
    let defined = eval_s(&p("twice"), &mut state);
    assert_eq!(defined.to_string(), "(lambda (f x) (f (f x)))");
    assert_eq!(p(&defined.to_string()), defined);
    let holder = eval_s(&p("(cons twice '(1 \"a\"))"), &mut state);
    assert_eq!(holder.to_string(), "((lambda (f x) (f (f x))) 1 \"a\")");
    assert_eq!(p(&holder.to_string()), holder);
}

#[test]
fn equality_of_values() {
    assert_eq!(sym("a"), sym("a"));
    assert_ne!(sym("a"), Val::String("a".to_string()));
    assert_eq!(num(0.0), num(-0.0));
    assert_ne!(num(f32::NAN), num(f32::NAN));
    assert_ne!(Val::Message("m".to_string()), Val::Message("m".to_string()));
    let mut state = State::new();
    let car = eval_s(&p("car"), &mut state);
    assert_ne!(car.clone(), car);
    assert_eq!(Val::default(), Val::nil());
    assert_eq!(Val::lies(), Val::nil());
    assert_eq!(Val::truth(), sym("t"));
}

#[test]
fn truth_and_callable() {
    assert!(Val::nil().is_nil());
    assert!(!num(0.0).is_nil());
    assert!(!Val::String(String::new()).is_nil());
    assert!(!sym("t").is_nil());
    assert!(p("(lambda (x) x)").is_callable());
    assert!(!p("(lamb (x) x)").is_callable());
    assert!(!p("()").is_callable());
    assert!(!p("7").is_callable());
    let mut state = State::new();
    assert!(eval_s(&p("car"), &mut state).is_callable());
}

#[test]
fn arithmetic_folds() {
    assert_eq!(eval(p("(+)")), num(0.0));
    assert_eq!(eval(p("(+ 7)")), num(7.0));
    assert_eq!(eval(p("(- 7)")), num(-7.0));
    assert_eq!(eval(p("(/ 8)")), num(0.125));
    assert_eq!(eval(p("(-)")), num(0.0));
    assert_eq!(eval(p("(/)")), num(0.0));
    assert_eq!(eval(p("(*)")), num(1.0));
    assert_eq!(eval(p("(%)")), num(0.0));
    assert_eq!(eval(p("(% 7)")), num(7.0));
    assert_eq!(eval(p("(- 10 1 2 3)")), num(4.0));
    assert_eq!(eval(p("(/ 64 2 4)")), num(8.0));
    assert_eq!(eval(p("(+ 1 \"two\" 3 'four)")), num(4.0));
    assert_eq!(eval(p("(* 2 \"x\" 5)")), num(10.0));
    assert_eq!(eval(p("(- \"x\" 5)")), num(-5.0));
    assert_eq!(eval(p("(% 17.5 5)")), num(17.5 % 5.0));
    assert_eq!(eval(p("(% -7 3)")), num(-7.0 % 3.0));
    assert_eq!(eval(p("(/ 1 3)")), num(1.0 / 3.0));
    assert_eq!(eval(p("(* 0.1 0.1)")), num(0.1 * 0.1));
    assert_eq!(eval(p("(+ 0.1 0.2)")), num(0.1 + 0.2));
    assert_eq!(eval(p("(- 0.3 0.1)")), num(0.3 - 0.1));
    assert_eq!(eval(p("(/ 1 0)")), num(f32::INFINITY));
    assert_eq!(eval(p("(+ 16777216 1)")), num(16777216.0));
}

#[test]
fn ordering_predicates() {
    assert_eq!(eval(p("(< 1 2 3)")), Val::truth());
    assert_eq!(eval(p("(< 1 3 2)")), Val::nil());
    assert_eq!(eval(p("(<)")), Val::nil());
    assert_eq!(eval(p("(>)")), Val::nil());
    assert_eq!(eval(p("(<=)")), Val::truth());
    assert_eq!(eval(p("(>=)")), Val::truth());
    assert_eq!(eval(p("(<= 5)")), Val::truth());
    assert_eq!(eval(p("(>= 5)")), Val::truth());
    assert_eq!(eval(p("(< 5)")), Val::truth());
    assert_eq!(eval(p("(> 5)")), Val::truth());
    assert_eq!(eval(p("(< 1 1)")), Val::nil());
    assert_eq!(eval(p("(<= 1 1 2)")), Val::truth());
    assert_eq!(eval(p("(>= 3 3 1)")), Val::truth());
    assert_eq!(eval(p("(>= 3 4)")), Val::nil());
    assert_eq!(eval(p("(> 3 2 1)")), Val::truth());
    assert_eq!(eval(p("(> 3 1 2)")), Val::nil());
    assert_eq!(eval(p("(< -1 0 0.5)")), Val::truth());
    assert_eq!(eval(p("(< 1 'x 2)")), Val::truth());
    assert_eq!(eval(p("(= 1 1 1)")), Val::truth());
    assert_eq!(eval(p("(= 1 1 2)")), Val::nil());
    assert_eq!(eval(p("(=)")), Val::truth());
    assert_eq!(eval(p("(= 1)")), Val::truth());
    assert_eq!(eval(p("(= '(1 2) '(1 2))")), Val::truth());
    assert_eq!(eval(p("(= \"a\" 'a)")), Val::nil());
}

#[test]
fn symbols_and_forms_that_stand_for_themselves() {
    assert_eq!(eval(p("undefined-name")), sym("undefined-name"));
    assert_eq!(eval(p("()")), Val::nil());
    assert_eq!(eval(p("(1 2 3)")), p("(1 2 3)"));
    assert_eq!(eval(p("(\"text\" 1)")), p("(\"text\" 1)"));
    assert_eq!(eval(p("(nothing 1 (+ 1 1))")), p("(nothing 1 2)"));
    assert_eq!(eval(p("5")), num(5.0));
    assert_eq!(eval(p("\"s\"")), Val::String("s".to_string()));
}

#[test]
fn lists_and_predicates() {
    assert_eq!(eval(p("(car ())")), Val::nil());
    assert_eq!(eval(p("(car 5)")), Val::nil());
    assert_eq!(eval(p("(car)")), Val::nil());
    assert_eq!(eval(p("(cdr ())")), Val::nil());
    assert_eq!(eval(p("(cdr '(1))")), Val::nil());
    assert_eq!(eval(p("(cdr)")), Val::nil());
    assert_eq!(eval(p("(cons 1)")), Val::nil());
    assert_eq!(eval(p("(cons)")), Val::nil());
    assert_eq!(eval(p("(cons 1 2)")), Val::nil());
    assert_eq!(eval(p("(cons 1 '(2 3))")), p("(1 2 3)"));
    assert_eq!(eval(p("(do)")), Val::nil());
    assert_eq!(eval(p("(do 1 2 3)")), num(3.0));
    assert_eq!(eval(p("(not)")), Val::truth());
    assert_eq!(eval(p("(not ())")), Val::truth());
    assert_eq!(eval(p("(not 0)")), Val::nil());
    assert_eq!(eval(p("(not \"\")")), Val::nil());
    assert_eq!(eval(p("(quote)")), Val::nil());
    assert_eq!(eval(p("(quote (a b))")), p("(a b)"));
    assert_eq!(eval(p("(list?)")), Val::nil());
    assert_eq!(eval(p("(lambda? (lambda (x) x))")), Val::truth());
    assert_eq!(eval(p("(lambda? '(lambda (x) x))")), Val::truth());
    assert_eq!(eval(p("(lambda? '(1 2))")), Val::nil());
    assert_eq!(eval(p("(lambda?)")), Val::nil());
    assert_eq!(eval(p("(apply + '(1 2 3))")), num(6.0));
    assert_eq!(eval(p("(apply)")), Val::nil());
    assert_eq!(eval(p("(apply + 5)")), num(0.0));
    assert_eq!(eval(p("(eval '(+ 1 2))")), num(3.0));
    assert_eq!(eval(p("(eval)")), Val::nil());
    assert_eq!(eval(p("(format 1 \"a\" 'b (1 2))")), Val::String("1ab(1 2)".to_string()));
    assert_eq!(eval(p("(format)")), Val::String(String::new()));
    assert_eq!(eval(p("(format 0.5 \" \" 10000)")), Val::String("0.5 10000".to_string()));
}

#[test]
fn conditionals() {
    assert_eq!(eval(p("(if)")), Val::nil());
    assert_eq!(eval(p("(if ())")), Val::nil());
    assert_eq!(eval(p("(if () 1)")), Val::nil());
    assert_eq!(eval(p("(if () 1 2)")), num(2.0));
    assert_eq!(eval(p("(if 0 1 2)")), num(1.0));
    assert_eq!(eval(p("(if \"\" 1 2)")), num(1.0));
    assert_eq!(eval(p("(if unbound 1 2)")), num(1.0));
    assert_eq!(eval(p("(if t \"yes\" \"no\")")), Val::String("yes".to_string()));
    assert_eq!(eval(p("(if t)")), Val::nil());
    assert_eq!(eval(p("(if (car '(())) 1 2)")), num(2.0));
    assert_eq!(eval(p("(if (= 1 1) (+ 1 1) (+ 2 2))")), num(2.0));
    assert_eq!(eval(p("(if (= 1 2) (+ 1 1) (+ 2 2))")), num(4.0));
    assert_eq!(eval(p("(if (= 1 1) unbound 2)")), sym("unbound"));
    let mut state = State::new();
    let s = &mut state;
    eval_s(&p("(define yes 1)"), s);
    eval_s(&p("(define no ())"), s);
    eval_s(&p("(define seven 7)"), s);
    assert_eq!(eval_s(&p("(if yes 1 2)"), s), num(1.0));
    assert_eq!(eval_s(&p("(if no 1 2)"), s), num(2.0));
    assert_eq!(eval_s(&p("(if yes seven 2)"), s), num(7.0));
}

#[test]
fn parameters_of_closures() {
    let mut state = State::new();
    let s = &mut state;
    eval_s(&p("(define all (lambda args args))"), s);
    assert_eq!(eval_s(&p("(all 1 2 3)"), s), p("(1 2 3)"));
    assert_eq!(eval_s(&p("(all)"), s), Val::nil());
    eval_s(&p("(define (first a b) a)"), s);
    assert_eq!(eval_s(&p("(first 1 2 3 4)"), s), num(1.0));
    eval_s(&p("(define (second a b) b)"), s);
    assert_eq!(eval_s(&p("(second 1)"), s), sym("b"));
    eval_s(&p("(define several (lambda (x) (+ x 1) (+ x 2) (+ x 3)))"), s);
    assert_eq!(eval_s(&p("(several 10)"), s), num(13.0));
    eval_s(&p("(define (only-first x) (+ x 1) (+ x 2))"), s);
    assert_eq!(eval_s(&p("(only-first 10)"), s), num(11.0));
    eval_s(&p("(define (constant) 5)"), s);
    assert_eq!(eval_s(&p("(constant)"), s), num(5.0));
    assert_eq!(eval_s(&p("((lambda (x y) (* x y)) 6 7)"), s), num(42.0));
    eval_s(&p("(define as-data '(lambda (x) (+ x x)))"), s);
    assert_eq!(eval_s(&p("(as-data 4)"), s), num(8.0));
    eval_s(&p("(define short '(lambda (x)))"), s);
    assert_eq!(eval_s(&p("(short 4)"), s), p("((lambda (x)) 4)"));
}

#[test]
fn definitions_write_two_scopes_up() {
    let mut state = State::new();
    let s = &mut state;
    eval_s(&p("(define setter (lambda (v) (define inner v) inner))"), s);
    assert_eq!(eval_s(&p("(setter 3)"), s), num(3.0));
    assert_eq!(eval_s(&p("inner"), s), sym("inner"));
    assert_eq!(eval_s(&p("(setter 4)"), s), num(4.0));
    eval_s(&p("(define)"), s);
    eval_s(&p("(define 5 6)"), s);
    eval_s(&p("(define ())"), s);
    eval_s(&p("(define alone)"), s);
    assert_eq!(eval_s(&p("alone"), s), Val::nil());
    eval_s(&p("(define listed '(1 2))"), s);
    assert_eq!(eval_s(&p("listed"), s), p("(1 2)"));
    eval_s(&p("(define other listed)"), s);
    assert_eq!(eval_s(&p("other"), s), p("(1 2)"));
    eval_s(&p("(define free unbound-name)"), s);
    assert_eq!(eval_s(&p("free"), s), sym("unbound-name"));
}

#[test]
fn closures_see_the_scope_not_a_snapshot() {
    let mut state = State::new();
    let s = &mut state;
    eval_s(&p("(define rate 2)"), s);
    eval_s(&p("(define (scaled x) (* rate x))"), s);
    assert_eq!(eval_s(&p("(scaled 10)"), s), num(20.0));
    eval_s(&p("(define rate 3)"), s);
    assert_eq!(eval_s(&p("(scaled 10)"), s), num(30.0));

    eval_s(&p("(define (future x) (lambda () x))"), s);
    eval_s(&p("(define five (future 5))"), s);
    eval_s(&p("(define six (future 6))"), s);
    assert_eq!(eval_s(&p("(five)"), s), num(5.0));
    assert_eq!(eval_s(&p("(six)"), s), num(6.0));
    eval_s(&p("(define x 100)"), s);
    assert_eq!(eval_s(&p("(five)"), s), num(5.0));
}

#[test]
fn macros_get_the_form_as_it_stands() {
    let mut state = State::new();
    let s = &mut state;
    eval_s(&p("(define-syntax second (lambda (ev forms) (ev (car (cdr forms)))))"), s);
    assert_eq!(eval_s(&p("(second (undefined-function 1) (+ 1 2))"), s), num(3.0));
    eval_s(&p("(define-syntax raw (lambda (ev forms) forms))"), s);
    assert_eq!(eval_s(&p("(raw (+ 1 2) x)"), s), p("((+ 1 2) x)"));
    eval_s(&p("(define (user y) (second 0 (* y y)))"), s);
    assert_eq!(eval_s(&p("(user 9)"), s), num(81.0));
    eval_s(&p("(define-syntax (twice x) (+ x x))"), s);
    assert_eq!(eval_s(&p("twice"), s), p("(lambda (x) (+ x x))"));
    eval_s(&p("(define-syntax)"), s);
    eval_s(&p("(define-syntax bare)"), s);
    assert_eq!(eval_s(&p("bare"), s), Val::nil());
    eval_s(&p("(define-syntax alias five)"), s);
    assert_eq!(eval_s(&p("alias"), s), sym("five"));
}

#[test]
fn too_many_steps() {
    let mut state = State::new();
    let s = &mut state;
    eval_s(&p("(define (forever) (forever))"), s);
    assert_eq!(eval_s(&p("(forever)"), s), sym("Error: Too many steps"));
    assert!(s.stack.len() <= 2);
    assert_eq!(STEP_BUDGET, 10000);
    s.set_program(p("(forever)"));
    assert_eq!(s.run(), None);
    assert!(s.running());
    assert_eq!(eval_s(&p("(+ 1 1)"), s), num(2.0));
}

#[test]
fn parse_failures_are_values() {
    assert_eq!(p("(1 2"), sym("Error parsing: (1 2"));
    assert_eq!(p(""), sym("Error parsing: "));
    assert_eq!(p("   "), sym("Error parsing:    "));
    assert_eq!(p("1 2 3"), num(1.0));
    assert_eq!(p("t"), sym("t"));
    assert_eq!(p("f"), sym("f"));
    assert_eq!(p("nil"), Val::nil());
    assert_eq!(p("\"\""), Val::String(String::new()));
    assert_eq!(p("'x"), p("(quote x)"));
    assert_eq!(p("-7"), num(-7.0));
    assert_eq!(p("2147483647"), num(2147483647.0));
    assert_eq!(p_all("1 (a b) \"c\""), vec![num(1.0), p("(a b)"), Val::String("c".to_string())]);
    assert_eq!(p_all(""), Vec::<Val>::new());
    assert_eq!(p_all("1 2 (3"), vec![num(1.0), num(2.0)]);
    assert_eq!(p_all(";; nothing but a remark\n"), Vec::<Val>::new());
    assert_eq!(p_all(";; a remark\n(a) ;; another\n(b)"), vec![p("(a)"), p("(b)")]);
}

#[test]
fn steps_one_by_one() {
    let mut state = State::new();
    let s = &mut state;
    assert!(s.finished());
    assert!(!s.running());
    assert_eq!(s.step(), Some(Val::nil()));
    s.set_program(p("(+ 1 (* 2 3))"));
    assert!(s.running());
    assert!(!s.finished());
    assert_eq!(s.stack.len(), 1);
    assert_eq!(s.stack[0].pc, 0);
    assert_eq!(s.step(), None);
    assert_eq!(s.stack[0].pc, 1);
    assert_eq!(s.stack[0].init, vec![sym("+"), num(1.0), p("(* 2 3)")]);
    assert_eq!(s.step(), None);
    assert_eq!(s.stack[0].pc, 2);
    assert_eq!(s.step(), None);
    assert_eq!(s.stack.len(), 2);
    assert_eq!(s.step(), None);
    assert_eq!(s.step(), None);
    assert_eq!(s.step(), None);
    assert_eq!(s.stack[1].pc, 3);
    assert_eq!(s.step(), None);
    assert_eq!(s.stack.len(), 1);
    assert_eq!(s.stack[0].accum[2], num(6.0));
    assert_eq!(s.stack[0].pc, 3);
    assert_eq!(s.step(), Some(num(7.0)));
    assert_eq!(s.result, num(7.0));
    assert!(s.finished());
    assert_eq!(s.run(), None);
}

#[test]
fn programs_that_are_no_forms() {
    let mut state = State::new();
    let s = &mut state;
    s.set_program(num(4.0));
    assert_eq!(s.result, num(4.0));
    assert!(s.stack.is_empty());
    s.set_program(sym("car"));
    assert_eq!(s.result.to_string(), "<builtin>");
    s.set_program(sym("nobody"));
    assert_eq!(s.result, sym("nobody"));
    assert_eq!(s.get_var(&"car".to_string()).map(|v| v.to_string()), Some("<builtin>".to_string()));
    assert_eq!(s.get_var(&"nobody".to_string()), None);
    assert_eq!(s.get_var_ref(), s.vars.root());
}
