use steplisp::exec::{eval_s, State};
use steplisp::object::{read_ivec2, read_object, read_string};
use steplisp::val::p;
use steplisp::variables::ScopeRef;

const LIBRARY: &str = "
(define (even? n) (= (% n 2) 0))
(define (print x) (event 'print x))
(define (cond-eval ev clauses)
  (if clauses
    (if (ev (car (car clauses)))
      (ev (car (cdr (car clauses))))
      (cond-eval ev (cdr clauses)))
    ()))
(define-syntax cond (lambda (ev clauses) (cond-eval ev clauses)))
(define (loop-run forms) (apply (lambda results (loop-run forms)) forms))
(define-syntax loop (lambda (ev forms) (loop-run forms)))
";

#[test]
pub fn test_collatz() {
    let mut state = State::new();
    let s = &mut state;
    s.load_lib(LIBRARY);

    eval_s(&p("(define collatz (lambda (n) 
    (print n)
    (if (= n 1) 
      1
      (if (even? n) 
        (+ 1 (collatz (/ n 2)))
        (+ 1 (collatz (+ (* 3 n) 1)))))))"), s);

    assert_eq!(eval_s(&p("(collatz 10)"), s), p("7"));
    assert_eq!(eval_s(&p("(collatz 100)"), s), p("26"));
    assert_eq!(eval_s(&p("(collatz 1161)"), s), p("182"));
}

#[test]
fn test_cond() {
    let mut state = State::new();
    let s = &mut state;
    s.load_lib(LIBRARY);

    assert_eq!(eval_s(&p("(cond ((= 1 1) 2) (else 3))"), s), p("2"));
    eval_s(&p("(define (m x) (cond ((= x 1) 1) ((= x 2) 2) (else 3)))"), s);
    assert_eq!(eval_s(&p("(m 1)"), s), p("1"));
    assert_eq!(eval_s(&p("(m 2)"), s), p("2"));
    assert_eq!(eval_s(&p("(m 4)"), s), p("3"));
}

#[test]
fn test_read_object() {
    let obj = p("((name test) (type item) (size 1 1) (health 100) (speed 0.1) (range 0) (power 0) (consumes 0) (outputs 0) (requirements 0) (buildtime 0) (very-cool) (description \"This is some complex object\"))");

    let mut props = 0;
    read_object(&obj, |key, val| {
        props += 1;
        match key {
            "name" => assert_eq!(val, &p("test")),
            "type" => assert_eq!(val, &p("item")),
            "size" => {
                assert_eq!(val, &p("(1 1)"));
                read_ivec2(&val, |x, y| {
                    assert_eq!(x, 1);
                    assert_eq!(y, 1);
                }, || panic!("Invalid size"));
            },
            "health" => {
                assert_eq!(val, &p("100"));
                read_ivec2(&val, |_, _| {
                    panic!("read_ivec2 should not be called on a single value");
                }, || ());
            },
            "speed" => assert_eq!(val, &p("0.1")),
            "range" => assert_eq!(val, &p("0")),
            "power" => assert_eq!(val, &p("0")),
            "consumes" => assert_eq!(val, &p("0")),
            "outputs" => assert_eq!(val, &p("0")),
            "requirements" => assert_eq!(val, &p("0")),
            "buildtime" => assert_eq!(val, &p("0")),
            "very-cool" => assert_eq!(val, &p("()")),
            "description" => {
                assert_eq!(val, &p("\"This is some complex object\""));
                assert_eq!(read_string(val), "This is some complex object");
            },
            _ => panic!("Unknown key: {}", key),
        }
    });
    assert_eq!(props, 13);
}

#[test]
fn test_message_loop() {
    let mut state = State::new();
    let s = &mut state;
    s.load_lib(LIBRARY);

    s.message_add("test");
    s.set_program(p("(loop (test 1 2 3) (test 4 5 6))"));

    for i in 0..10 {
        println!("iteration {}", i);
        assert_eq!(s.message_peek(), None);
        s.run();
        assert_eq!(s.message_peek(), Some(vec![p("test"), p("1"), p("2"), p("3")]));
        s.message_return(p("7"));
        assert_eq!(s.message_peek(), None);
        s.run();
        assert_eq!(s.message_peek(), Some(vec![p("test"), p("4"), p("5"), p("6")]));
        s.message_return(p("8"));
        assert_eq!(s.message_peek(), None);

        //check tail recursion
        println!("{}", s.describe());
        assert_eq!(s.stack.len(), 1);
    }
}

#[test]
fn a_loop_does_not_grow_the_arena() {
    let mut state = State::new();
    let s = &mut state;
    s.load_lib(LIBRARY);
    s.message_add("test");
    s.set_program(p("(loop (test 1 2 3))"));
    s.run();
    s.message_return(p("7"));
    s.run();
    let scopes = s.vars.len();
    let memory = s.memory_usage();
    for _ in 0..50 {
        s.message_return(p("7"));
        s.run();
        assert_eq!(s.stack.len(), 2);
        assert_eq!(s.vars.len(), scopes);
        assert_eq!(s.memory_usage(), memory);
    }
}

#[test]
fn test_memory_management() {
    let mut state = State::new();
    let s = &mut state;
    s.load_lib(LIBRARY);

    // The scope in which `fib` was defined stays in use: the closure captured it.
    let captured = std::mem::size_of::<ScopeRef>();
    let init_mem = s.memory_usage();
    eval_s(&p("(define (fib n) (if (< n 2) n (+ (fib (- n 1)) (fib (- n 2)))))"), s);
    assert_eq!(s.memory_usage(), init_mem + 74 + captured);
    assert_eq!(eval_s(&p("(fib 10)"), s), p("55"));
    assert_eq!(s.stack.len(), 0);
    assert_eq!(s.memory_usage(), init_mem + 74 + captured);

    eval_s(&p("(define (add x) (lambda (y) (+ x y)))"), s);
    eval_s(&p("(define add5 (add 5))"), s);
    eval_s(&p("(define (mul x) (lambda (y) (* x y)))"), s);
    let init_mem = s.memory_usage();
    assert_eq!(eval_s(&p("((add 1) 2)"), s), p("3"));
    assert_eq!(eval_s(&p("((add 2) 3)"), s), p("5"));
    assert_eq!(eval_s(&p("((add 3) 4)"), s), p("7"));
    assert_eq!(eval_s(&p("((mul 2) 3)"), s), p("6"));
    assert_eq!(eval_s(&p("((mul ((add 1) 2)) 3)"), s), p("9"));
    assert_eq!(eval_s(&p("((mul ((add 1) 2)) ((add 1) 2))"), s), p("9"));
    assert_eq!(eval_s(&p("((mul ((mul 4) 2)) ((add 1) 2))"), s), p("24"));
    assert_eq!(eval_s(&p("(add5 10)"), s), p("15"));
    assert_eq!(eval_s(&p("(add5 ((mul 2) 3))"), s), p("11"));
    assert_eq!(eval_s(&p("((mul 2) (add5 3))"), s), p("16"));
    assert_eq!(s.stack.len(), 0);
    assert_eq!(s.vars.memory_usage(), init_mem);
    assert_eq!(s.memory_usage(), init_mem);
}

#[test]
fn memory_does_not_grow_across_many_calls() {
    let mut state = State::new();
    let s = &mut state;
    eval_s(&p("(define (fib n) (if (< n 2) n (+ (fib (- n 1)) (fib (- n 2)))))"), s);
    eval_s(&p("(define (add x) (lambda (y) (+ x y)))"), s);
    eval_s(&p("(define add5 (add 5))"), s);
    eval_s(&p("(define (mul x) (lambda (y) (* x y)))"), s);
    let init_mem = s.memory_usage();
    let mut slots = 0;
    for round in 0..20 {
        assert_eq!(eval_s(&p("(fib 8)"), s), p("21"));
        assert_eq!(eval_s(&p("((add 1) 2)"), s), p("3"));
        assert_eq!(eval_s(&p("((mul ((add 1) 2)) ((add 1) 2))"), s), p("9"));
        assert_eq!(eval_s(&p("(add5 ((mul 2) 3))"), s), p("11"));
        assert_eq!(s.memory_usage(), init_mem);
        if round == 0 {
            // The first round makes the slots that every later round uses again.
            slots = s.vars.len();
        }
        assert_eq!(s.vars.len(), slots);
    }
}
