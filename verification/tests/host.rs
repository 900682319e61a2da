use steplisp::exec::{eval_s, State};
use steplisp::val::{p, Val};
use steplisp::variables::ScopeRef;

fn num(x: f32) -> Val {
    Val::Num(x.to_bits())
}

fn sym(name: &str) -> Val {
    Val::Sym(name.to_string())
}

#[test]
fn events_keep_their_order() {
    let mut state = State::new();
    let s = &mut state;
    assert_eq!(s.take_event(), None);
    s.send_event(num(1.0));
    s.send_event(num(2.0));
    s.send_event(num(1.0));
    assert!(!s.finished());
    assert_eq!(s.take_event(), Some(num(1.0)));
    assert_eq!(s.take_event(), Some(num(2.0)));
    assert_eq!(s.take_event(), Some(num(1.0)));
    assert_eq!(s.take_event(), None);
    assert!(s.finished());
}

#[test]
fn an_event_holds_the_run() {
    let mut state = State::new();
    let s = &mut state;
    s.set_program(p("(+ 1 (do (event 'print 5) 9))"));
    assert_eq!(s.run(), None);
    assert!(!s.running());
    assert_eq!(s.events, vec![p("(print 5)")]);
    assert_eq!(s.run(), None);
    assert_eq!(s.process_events(), vec!["5".to_string()]);
    assert!(s.events.is_empty());
    assert!(s.running());
    assert_eq!(s.run(), Some(num(10.0)));
}

#[test]
fn lines_of_events() {
    let mut state = State::new();
    let s = &mut state;
    s.send_event(p("(print hello)"));
    s.send_event(p("(print \"text\")"));
    s.send_event(p("(print (1 2))"));
    s.send_event(p("(print)"));
    s.send_event(p("(beep 1)"));
    s.send_event(p("()"));
    s.send_event(num(3.0));
    s.send_event(p("(1 2)"));
    s.print("shown".to_string());
    s.print_error("wrong".to_string());
    assert_eq!(
        s.process_events(),
        vec![
            "hello".to_string(),
            "\"text\"".to_string(),
            "(1 2)".to_string(),
            "Unknown event: (beep 1)".to_string(),
            "\"shown\"".to_string(),
            "\"wrong\"".to_string(),
        ]
    );
    assert_eq!(s.process_events(), Vec::<String>::new());
}

#[test]
fn an_interrupt_parks_the_stack_and_gives_it_back() {
    let mut state = State::new();
    let s = &mut state;
    s.set_program(p("(+ 1 (do (event 'print 5) 9))"));
    assert_eq!(s.run(), None);
    let depth = s.stack.len();
    let cursor = s.stack[depth - 1].pc;
    let form = Val::List(s.stack[depth - 1].accum.clone()).to_string();
    assert_eq!(form, "(<builtin> () 9)");
    assert_eq!(depth, 2);

    s.interrupt(p("(* 6 7)"));
    assert_eq!(s.back_stack.len(), 1);
    assert_eq!(s.back_stack[0].len(), depth);
    assert_eq!(s.stack.len(), 1);
    s.process_events();
    while !s.back_stack.is_empty() {
        assert_eq!(s.step(), None);
    }
    assert_eq!(s.result, num(42.0));
    assert_eq!(s.stack.len(), depth);
    assert_eq!(s.stack[depth - 1].pc, cursor);
    assert_eq!(Val::List(s.stack[depth - 1].accum.clone()).to_string(), form);
    assert_eq!(s.run(), Some(num(10.0)));
    assert!(s.finished());
}

#[test]
fn interrupts_nest() {
    let mut state = State::new();
    let s = &mut state;
    s.set_program(p("(+ 1 2)"));
    s.interrupt(p("(+ 10 20)"));
    s.interrupt(p("(+ 100 200)"));
    assert_eq!(s.back_stack.len(), 2);
    let mut results = vec![];
    for _ in 0..40 {
        let before = s.back_stack.len();
        let out = s.step();
        if s.back_stack.len() < before {
            results.push(s.result.clone());
        }
        if let Some(last) = out {
            results.push(last);
            break;
        }
    }
    assert_eq!(results, vec![num(300.0), num(30.0), num(3.0)]);
}

#[test]
fn an_interrupt_with_a_value_resumes_at_once() {
    let mut state = State::new();
    let s = &mut state;
    s.set_program(p("(+ 1 2)"));
    s.interrupt(num(5.0));
    assert_eq!(s.result, num(5.0));
    assert!(s.stack.is_empty());
    assert_eq!(s.step(), None);
    assert_eq!(s.stack.len(), 1);
    assert_eq!(s.run(), Some(num(3.0)));
}

#[test]
fn tail_calls_keep_the_stack_flat() {
    let mut state = State::new();
    let s = &mut state;
    s.message_add("test");
    eval_s(&p("(define (forever) (if (do (test 1 2 3) (test 4 5 6)) (forever) (forever)))"), s);
    s.set_program(p("(forever)"));

    for _ in 0..10 {
        assert_eq!(s.message_peek(), None);
        s.run();
        assert_eq!(s.message_peek(), Some(vec![p("test"), p("1"), p("2"), p("3")]));
        s.message_return(p("7"));
        assert_eq!(s.message_peek(), None);
        s.run();
        assert_eq!(s.message_peek(), Some(vec![p("test"), p("4"), p("5"), p("6")]));
        s.message_return(p("8"));
        assert_eq!(s.message_peek(), None);
        assert_eq!(s.stack.len(), 2);
    }

    eval_s(&p("(define (count n) (if (= n 0) 'done (count (- n 1))))"), s);
    s.set_program(p("(count 300)"));
    let mut deepest = 0;
    let result = loop {
        if let Some(result) = s.step() {
            break result;
        }
        deepest = deepest.max(s.stack.len());
    };
    assert_eq!(result, sym("done"));
    assert_eq!(deepest, 2);
    assert_eq!(s.stack.len(), 0);
}

#[test]
fn a_message_waits_for_its_answer() {
    let mut state = State::new();
    let s = &mut state;
    s.message_add("ask");
    assert!(matches!(eval_s(&p("ask"), s), Val::Message(name) if name == "ask"));
    s.set_program(p("(* 2 (ask (+ 1 1) 'why))"));
    assert_eq!(s.run(), None);
    assert!(!s.running());
    assert_eq!(s.message_peek(), Some(vec![sym("ask"), num(2.0), sym("why")]));
    assert_eq!(s.run(), None);
    assert_eq!(s.message_peek(), Some(vec![sym("ask"), num(2.0), sym("why")]));
    s.message_return(num(21.0));
    assert!(s.running());
    assert_eq!(s.run(), Some(num(42.0)));

    s.set_program(p("(ask)"));
    assert_eq!(s.run(), None);
    assert_eq!(s.message_peek(), Some(vec![sym("ask")]));
    s.message_return(num(1.0));
    assert_eq!(s.result, num(1.0));
    assert!(s.finished());
}

#[test]
fn load_asks_the_host_for_the_file() {
    let mut state = State::new();
    let s = &mut state;
    s.set_program(p("(load \"lib.txt\")"));
    assert_eq!(s.run(), None);
    assert_eq!(s.process_events(), vec!["\"Loading file: lib.txt\"".to_string()]);
    assert_eq!(
        s.message_peek(),
        Some(vec![sym("load"), Val::String("lib.txt".to_string())])
    );
    assert_eq!(s.wanted_file(), Some("lib.txt".to_string()));
    assert!(s.answer_load(Some("(define loaded 12) (define also 13)".to_string())));
    assert_eq!(s.wanted_file(), None);
    assert_eq!(s.message_peek(), None);
    assert_eq!(s.stack.len(), 1);
    assert_eq!(
        s.stack[0].accum,
        vec![p("(define loaded 12)"), p("(define also 13)")]
    );
    while s.running() {
        s.run();
    }
    assert_eq!(eval_s(&p("(+ loaded also)"), s), num(25.0));

    s.set_program(p("(load \"missing.txt\")"));
    assert_eq!(s.run(), None);
    s.process_events();
    assert_eq!(s.wanted_file(), Some("missing.txt".to_string()));
    assert!(s.answer_load(None));
    assert_eq!(s.result, Val::nil());
    assert_eq!(s.stack.len(), 0);
    assert!(!s.finished());
    assert_eq!(s.process_events(), vec!["\"Could not load file: missing.txt\"".to_string()]);
    assert!(s.finished());

    s.set_program(p("(load 5)"));
    assert_eq!(s.run(), Some(Val::nil()));
    assert_eq!(s.process_events(), vec!["\"Could not load file: 5\"".to_string()]);
    s.set_program(p("(load)"));
    assert_eq!(s.run(), Some(Val::nil()));
}

#[test]
fn a_load_inside_a_program_goes_on_with_the_file() {
    let mut state = State::new();
    let s = &mut state;
    s.set_program(p("(do (load \"lib.txt\") (+ seven 1))"));
    assert_eq!(s.run(), None);
    assert_eq!(s.stack.len(), 2);
    assert!(s.answer_load(Some("(define seven 7)".to_string())));
    assert_eq!(s.stack.len(), 2);
    assert!(!s.running());
    assert_eq!(s.process_events(), vec!["\"Loading file: lib.txt\"".to_string()]);
    let mut result = None;
    while s.running() {
        result = s.run();
    }
    assert_eq!(result, Some(num(8.0)));

    s.set_program(p("(do (load \"none.txt\") 3)"));
    assert_eq!(s.run(), None);
    assert!(s.answer_load(None));
    assert_eq!(s.stack.len(), 1);
    assert_eq!(
        s.process_events(),
        vec![
            "\"Loading file: none.txt\"".to_string(),
            "\"Could not load file: none.txt\"".to_string()
        ]
    );
    assert_eq!(s.run(), Some(num(3.0)));
}

#[test]
fn only_a_pending_load_is_answered() {
    let mut state = State::new();
    let s = &mut state;
    assert_eq!(s.wanted_file(), None);
    assert!(!s.answer_load(Some("(define stray 1)".to_string())));
    assert!(!s.answer_load(None));
    assert_eq!(s.stack.len(), 0);
    assert_eq!(s.process_events(), Vec::<String>::new());
    assert_eq!(eval_s(&p("stray"), s), sym("stray"));

    s.message_add("ask");
    s.set_program(p("(ask \"lib.txt\")"));
    assert_eq!(s.run(), None);
    assert_eq!(
        s.message_peek(),
        Some(vec![sym("ask"), Val::String("lib.txt".to_string())])
    );
    assert_eq!(s.wanted_file(), None);
    assert!(!s.answer_load(Some("(define stray 1)".to_string())));
    assert_eq!(
        s.message_peek(),
        Some(vec![sym("ask"), Val::String("lib.txt".to_string())])
    );
    assert_eq!(s.stack.len(), 1);

    s.set_program(p("(+ 1 2)"));
    assert_eq!(s.step(), None);
    assert!(!s.answer_load(None));
    assert_eq!(s.run(), Some(num(3.0)));
}

#[test]
fn the_program_that_takes_over() {
    let mut state = State::new();
    let s = &mut state;
    s.set_main_program(p("(+ 1 2)"));
    assert_eq!(s.back_stack.len(), 1);
    assert_eq!(s.back_stack[0][0].accum, vec![sym("+"), num(1.0), num(2.0)]);
    s.set_main_program(num(9.0));
    assert_eq!(s.back_stack.len(), 1);
    assert_eq!(s.back_stack[0][0].accum, vec![num(9.0)]);
    assert!(s.running());
    assert_eq!(s.step(), None);
    assert_eq!(s.stack.len(), 1);
    assert_eq!(s.run(), Some(p("(9)")));

    s.set_program(p("(do (set-program '(* 3 3)) 1)"));
    assert_eq!(s.run(), Some(num(9.0)));
    assert!(s.finished());
    assert_eq!(eval_s(&p("(set-program)"), s), Val::nil());
}

#[test]
fn frames_by_hand() {
    let mut state = State::new();
    let s = &mut state;
    s.add_stackframe(vec![sym("+"), num(1.0), num(2.0)]);
    assert_eq!(s.stack.len(), 1);
    assert_ne!(s.get_var_ref(), s.vars.root());
    assert_eq!(s.vars.parent(s.get_var_ref()), s.vars.root());
    s.get_stackframe().pc = 3;
    s.get_stackframe().accum[0] = sym("list");
    s.call();
    assert_eq!(s.result, p("(list 1 2)"));
    assert!(s.stack.is_empty());
    s.call();
    assert!(s.stack.is_empty());

    s.add_stackframe(vec![sym("a"), sym("b")]);
    s.add_stackframe(vec![]);
    s.return_stackframe(num(5.0));
    assert_eq!(s.stack[0].accum, vec![num(5.0), sym("b")]);
    assert_eq!(s.stack[0].init, vec![sym("a"), sym("b")]);
    assert_eq!(s.stack[0].pc, 1);
    s.replace_stackframe(vec![sym("c")]);
    assert_eq!(s.stack[0].accum, vec![sym("c")]);
    assert_eq!(s.stack[0].pc, 0);
    s.return_stackframe(num(6.0));
    assert_eq!(s.result, num(6.0));
    s.return_stackframe(num(7.0));
    assert_eq!(s.result, num(7.0));
    s.replace_stackframe(vec![sym("c")]);
    assert!(s.stack.is_empty());

    s.set_var(&"top".to_string(), num(1.0));
    assert_eq!(s.get_var(&"top".to_string()), Some(&num(1.0)));
}

#[test]
fn a_step_waits_while_a_message_is_pending() {
    let mut state = State::new();
    let s = &mut state;
    s.message_add("ask");
    s.set_program(p("(+ 1 (ask 2 3))"));
    assert_eq!(s.run(), None);
    assert!(s.message_pending());
    let depth = s.stack.len();
    let waiting = Val::List(s.stack[depth - 1].accum.clone()).to_string();
    assert_eq!(waiting, "(ask 2 3)");
    for _ in 0..5 {
        assert_eq!(s.step(), None);
        assert_eq!(s.stack.len(), depth);
        assert_eq!(Val::List(s.stack[depth - 1].accum.clone()).to_string(), waiting);
        assert_eq!(s.message_peek(), Some(vec![sym("ask"), num(2.0), num(3.0)]));
    }
    s.message_return(num(41.0));
    assert!(!s.message_pending());
    assert_eq!(s.run(), Some(num(42.0)));

    assert_eq!(eval_s(&p("(ask)"), s), sym("Error: Too many steps"));
    assert_eq!(s.message_peek(), Some(vec![sym("ask")]));
    s.message_return(Val::nil());
    assert!(s.finished());
}

#[test]
fn a_call_starts_over_in_a_scope_below_the_captured_one() {
    let mut state = State::new();
    let s = &mut state;
    eval_s(&p("(define (g y z) (+ y z))"), s);
    s.set_program(p("(g 5 6)"));
    while s.stack[0].pc < s.stack[0].accum.len() {
        assert_eq!(s.step(), None);
        assert_eq!(s.stack.len(), 1);
    }
    let captured = match &s.stack[0].accum[0] {
        Val::Lambda(false, captured, _) => *captured,
        _ => panic!("the head is no closure"),
    };
    assert!(s.vars.is_live(captured));
    assert_eq!(s.stack[0].accum[1..], [num(5.0), num(6.0)]);
    let caller = s.stack[0].vars;
    let memory = s.memory_usage();

    s.call();
    assert_eq!(s.stack.len(), 1);
    let scope = s.stack[0].vars;
    assert_ne!(scope, caller);
    assert_eq!(s.stack[0].accum, vec![sym("+"), sym("y"), sym("z")]);
    assert_eq!(s.stack[0].init, vec![sym("+"), sym("y"), sym("z")]);
    assert_eq!(s.stack[0].pc, 0);
    assert!(s.vars.is_live(scope));
    assert_eq!(s.vars.parent(scope), captured);
    assert_eq!(s.vars.get(scope, "y"), Some(&num(5.0)));
    assert_eq!(s.vars.get(scope, "z"), Some(&num(6.0)));
    assert!(s.vars.is_free(caller));
    assert_eq!(
        s.memory_usage(),
        memory + 2 + num(5.0).memory_usage() + num(6.0).memory_usage()
    );
    let mut result = None;
    while s.running() {
        result = s.run();
    }
    assert_eq!(result, Some(num(11.0)));
    assert_eq!(s.memory_usage(), memory - std::mem::size_of::<ScopeRef>());
}

#[test]
fn equality_is_an_equivalence_but_for_what_equals_nothing() {
    let mut state = State::new();
    let s = &mut state;
    let list = p("(1 (a \"b\") () 2.5)");
    let again = p("(1 (a \"b\") () 2.5)");
    assert!(list == list);
    assert!(list == again && again == list);
    let closure = eval_s(&p("(lambda (x) (f x))"), s);
    let form = p("(lambda (x) (f x))");
    let other = eval_s(&p("(macro (x) (f x))"), s);
    assert!(matches!(closure, Val::Lambda(false, _, _)));
    assert!(closure == closure);
    assert!(closure == form && form == closure);
    assert!(form == p("(lambda (x) (f x))") && closure == p("(lambda (x) (f x))"));
    assert!(closure != other && other != closure);

    let nan = Val::Num(f32::NAN.to_bits());
    assert!(nan != nan);
    assert!(Val::List(vec![num(1.0), nan.clone()]) != Val::List(vec![num(1.0), nan]));
    let native = eval_s(&sym("car"), s);
    assert!(matches!(native, Val::Builtin(_, _)));
    assert!(native != native);
    assert!(Val::List(vec![native.clone()]) != Val::List(vec![native]));
    assert!(num(0.0) == num(-0.0) && num(-0.0) == num(0.0));
    assert!(sym("a") != Val::String("a".to_string()));
}
