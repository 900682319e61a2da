use steplisp::exec::{eval, eval_s, State};
use steplisp::val::{p, Val};

#[test]
fn test_parsing() {
    assert_eq!(p("(1)"), p("(1)"));
    assert_ne!(p("(1)"), p("(2)"));
    assert_ne!(p("(1)"), p("(1 2)"));
    assert_eq!(p("'(1)"), p("(quote (1))"));
    assert_eq!(eval(p("'(+ 2 2)")), p("(+ 2 2)"));
}

#[test]
fn test_arithmetic() {
    assert_eq!(eval(p("(+ 1 2)")), p("3"));
    assert_eq!(eval(p("(+ 1 2 3)")), p("6"));
    assert_eq!(eval(p("(* 1 2)")), p("2"));
    assert_eq!(eval(p("(/ 1 2)")), p("0.5"));
    assert_eq!(eval(p("(- 1 2)")), p("-1"));
    assert_eq!(eval(p("(- 1)")), p("-1"));
    assert_eq!(eval(p("(/ 4)")), p("0.25"));
    assert_eq!(eval(p("(+ 39 48 72 23 91)")), p("273"));
    assert_eq!(eval(p("(/ 273 5)")), p("54.6"));
    assert_eq!(eval(p("(% 17 12)")), p("5"));
}

#[test]
fn test_arithmetic_nested() {
    assert_eq!(eval(p("(* (+ 1 39) (- 53 45))")), p("320"));
    assert_eq!(eval(p("(/ (+ 39 48 72 23 91) 5)")), p("54.6"));
}

#[test]
fn test_car_cdr() {
    assert_eq!(eval(p("(car '(1 2 3))")), p("1"));
    assert_eq!(eval(p("(cdr '(1 2 3))")), p("(2 3)"));
    assert_eq!(eval(p("(cdr (cons 3 (cons 2 (cons 1 '()))))")), p("(2 1)"));
}

#[test]
fn test_variables() {
    let mut state = State::new();
    let s = &mut state;

    eval_s(&p("(define x 1)"), s);
    assert_eq!(eval_s(&p("x"), s), p("1"));

    eval_s(&p("(define x (+ 2 2))"), s);
    assert_eq!(eval_s(&p("x"), s), p("4"));

    eval_s(&p("(define y x)"), s);
    assert_eq!(eval_s(&p("y"), s), p("4"));

    // variable pollution
    assert_eq!(eval_s(&p("a"), s), p("a"));
    eval_s(&p("(define mutate (lambda (x) (define a x) a))"), s);
    assert_eq!(eval_s(&p("(mutate 10)"), s), p("10"));
    assert_eq!(eval_s(&p("a"), s), p("a"));

    eval_s(&p("(define f (lambda (x) x))"), s);
    assert_eq!(eval_s(&p("(f 10)"), s), p("10"));
}

#[test]
fn test_lambda() {
    let mut state = State::new();
    let s = &mut state;

    eval_s(&p("(define hello (lambda () \"Hello World\"))"), s);
    assert_eq!(eval_s(&p("(hello)"), s), p("\"Hello World\""));
    assert_eq!(eval_s(&p("hello"), s), p("(lambda () \"Hello World\")"));

    eval_s(&p("(define greeting \"Hello World\")"), s);
    eval_s(&p("(define hello (lambda () greeting))"), s);
    assert_eq!(eval_s(&p("(hello)"), s), p("\"Hello World\""));

    eval_s(&p("(define square (lambda (x) (* x x)))"), s);
    assert_eq!(eval_s(&p("(square 30)"), s), p("900"));

    eval_s(&p("(define sum3 (lambda (a b c) (+ a b c)))"), s);
    assert_eq!(eval_s(&p("(sum3 10 20 30)"), s), p("60"));

    eval_s(&p("(define (mult3 a b c) (* a b c)))"), s);
    assert_eq!(eval_s(&p("(+ (mult3 10 30 30) 1)"), s), p("9001"));
}

#[test]
fn test_if() {
    let mut state = State::new();
    let s = &mut state;

    assert_eq!(eval_s(&p("(if (= 1 1) \"yes\" \"no\")"), s), p("\"yes\""));
    assert_eq!(eval_s(&p("(if (> 1 2) \"I'll eat my hat!\" \"no\")"), s), p("\"no\""));
    assert_eq!(eval_s(&p("(if (< 1 2 3) \"yes\" \"no\")"), s), p("\"yes\""));
    assert_eq!(eval_s(&p("(if (> 1 2 3) \"yes\" \"no\")"), s), p("\"no\""));

    eval_s(&p("(define x 5)"), s);
    assert_eq!(eval_s(&p("(if (> 2 x) \"yes\" \"no\")"), s), p("\"no\""));
}

#[test]
fn test_types() {
    assert_eq!(eval(p("(list? ())")), p("t"));
    assert_eq!(eval(p("(list? 'a)")), p("()"));
    assert_eq!(eval(p("(symbol? 'a)")), p("t"));
    assert_eq!(eval(p("(symbol? a)")), p("t"));
    assert_eq!(eval(p("(symbol? ())")), p("()"));
    assert_eq!(eval(p("(string? \"a\")")), p("t"));
    assert_eq!(eval(p("(string? 'a)")), p("()"));
    assert_eq!(eval(p("(string? a)")), p("()"));
    assert_eq!(eval(p("(number? 5)")), p("t"));
    assert_eq!(eval(p("(number? a)")), p("()"));
    assert_eq!(eval(p("(lambda? a)")), p("()"));
    assert_eq!(eval(p("(lambda? 5)")), p("()"));

    assert_ne!(p("\"a\""), p("a"));

    let mut state = State::new();
    let s = &mut state;
    eval_s(&p("(define x 5)"), s);
    assert_eq!(eval_s(&p("(if (number? x) \"yes\" \"no\")"), s), p("\"yes\""));

    eval_s(&p("(define (hello) \"Hello World\")"), s);
    assert_eq!(eval_s(&p("(if (lambda? hello) \"yes\" \"no\")"), s), p("\"yes\""));
    assert_eq!(eval_s(&p("(if (not (lambda? x)) \"yes\" \"no\")"), s), p("\"yes\""));
}

#[test]
fn test_recursion() {
    let mut state = State::new();
    let s = &mut state;

    eval_s(&p("(define (factorial n) (if (= n 1) 1 (* n (factorial (- n 1)))))"), s);
    assert_eq!(eval_s(&p("(factorial 5)"), s), p("120"));

    eval_s(&p("(define (fib n) (if (< n 2) n (+ (fib (- n 1)) (fib (- n 2)))))"), s);
    assert_eq!(eval_s(&p("(fib 10)"), s), p("55"));

    eval_s(&p("(define (list*2 ls) 
    (if ls
      (cons (* 2 (car ls)) (list*2 (cdr ls))
      '())))"), s);
    assert_eq!(eval_s(&p("(list*2 '(1 2 3 4 5))"), s), p("(2 4 6 8 10)"));
}

#[test]
fn test_closure() {
    let mut state = State::new();
    let s = &mut state;

    eval_s(&p("(define (add x) (lambda (y) (+ x y)))"), s);
    assert_eq!(eval_s(&p("((add 1) 2)"), s), p("3"));
    assert_eq!(eval_s(&p("((add 2) 3)"), s), p("5"));
    assert_eq!(eval_s(&p("((add 3) 4)"), s), p("7"));

    eval_s(&p("(define (mul x) (lambda (y) (* x y)))"), s);
    assert_eq!(eval_s(&p("((mul 2) 3)"), s), p("6"));
    assert_eq!(eval_s(&p("((mul ((add 1) 2)) 3)"), s), p("9"));
    assert_eq!(eval_s(&p("((mul ((add 1) 2)) ((add 1) 2))"), s), p("9"));
    assert_eq!(eval_s(&p("((mul ((mul 4) 2)) ((add 1) 2))"), s), p("24"));

    eval_s(&p("(define add5 (add 5))"), s);
    assert_eq!(eval_s(&p("(add5 10)"), s), p("15"));
    assert_eq!(eval_s(&p("(add5 ((mul 2) 3))"), s), p("11"));
    assert_eq!(eval_s(&p("((mul 2) (add5 3))"), s), p("16"));

    eval_s(&p("(define (future x) (lambda () x))"), s);
    assert_eq!(eval_s(&p("((future 4))"), s), p("4"));
    eval_s(&p("(define five (future 5))"), s);
    assert_eq!(eval_s(&p("(five)"), s), p("5"));
    assert_eq!(eval_s(&p("((future 6))"), s), p("6"));
    assert_eq!(eval_s(&p("(five)"), s), p("5"));
}

#[test]
fn test_message() {
    let mut state = State::new();
    let s = &mut state;

    s.message_add("test");
    s.set_program(p("(test 1 2 3)"));
    assert_eq!(s.message_peek(), None);
    s.run();
    assert_eq!(s.message_peek(), Some(vec![p("test"), p("1"), p("2"), p("3")]));

    s.set_program(p("(+ 2 (test 4 5 6))"));
    s.run();
    assert_eq!(s.message_peek(), Some(vec![p("test"), p("4"), p("5"), p("6")]));
    s.message_return(p("7"));
    assert_eq!(s.message_peek(), None);
    s.run();
    assert_eq!(s.message_peek(), None);
    assert_eq!(s.result, p("9"));
}

#[test]
fn number_bits_are_those_of_the_value() {
    assert_eq!(p("0.5"), Val::Num(0.5f32.to_bits()));
    assert_eq!(p("3"), Val::Num(3.0f32.to_bits()));
    assert_eq!(eval(p("(/ 273 5)")), Val::Num((273.0f32 / 5.0f32).to_bits()));
}
