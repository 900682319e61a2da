use steplisp::exec::{eval_s, State};
use steplisp::val::{p, Val};
use steplisp::variables::{ScopeRef, VarSpace};

fn num(x: f32) -> Val {
    Val::Num(x.to_bits())
}

#[test]
fn lookups_walk_up_to_the_root() {
    let mut vars = VarSpace::new();
    let root = vars.root();
    assert_eq!(root, ScopeRef(0));
    assert_eq!(vars.parent(root), root);
    let a = vars.new_child(root);
    let b = vars.new_child(a);
    assert_eq!(a, ScopeRef(1));
    assert_eq!(b, ScopeRef(2));
    assert_eq!(vars.parent(b), a);
    assert_eq!(vars.parent(ScopeRef(77)), root);

    vars.set(root, "x", num(1.0));
    vars.set(a, "y", num(2.0));
    assert_eq!(vars.get(b, "x"), Some(&num(1.0)));
    assert_eq!(vars.get(b, "y"), Some(&num(2.0)));
    assert_eq!(vars.get(root, "y"), None);
    assert_eq!(vars.get(b, "z"), None);
    assert_eq!(vars.get(ScopeRef(77), "x"), None);

    vars.set(b, "x", num(3.0));
    assert_eq!(vars.get(b, "x"), Some(&num(3.0)));
    assert_eq!(vars.get(a, "x"), Some(&num(1.0)));
    vars.set(b, "x", num(4.0));
    assert_eq!(vars.get(b, "x"), Some(&num(4.0)));
    vars.set(ScopeRef(77), "x", num(5.0));
    assert_eq!(vars.len(), 3);

    vars.set_all(a, vec![("p".to_string(), num(1.0)), ("q".to_string(), num(2.0)), ("p".to_string(), num(3.0))]);
    assert_eq!(vars.get(a, "p"), Some(&num(3.0)));
    assert_eq!(vars.get(b, "q"), Some(&num(2.0)));
}

#[test]
fn removed_scopes_are_used_again() {
    let mut vars = VarSpace::new();
    let root = vars.root();
    let a = vars.new_child(root);
    let b = vars.new_child(a);
    let c = vars.new_child(b);
    let d = vars.new_child(root);
    vars.set(b, "x", num(1.0));
    assert!(vars.scope_has_ancestor(c, a));
    assert!(vars.scope_has_ancestor(c, c));
    assert!(vars.scope_has_ancestor(c, root));
    assert!(!vars.scope_has_ancestor(a, c));
    assert!(!vars.scope_has_ancestor(d, a));
    assert!(!vars.scope_has_ancestor(ScopeRef(77), a));

    vars.remove(b);
    assert!(vars.is_free(b));
    assert!(vars.is_free(c));
    assert!(!vars.is_free(a));
    assert!(!vars.is_free(d));
    assert_eq!(vars.get(b, "x"), None);
    assert_eq!(vars.parent(c), root);
    vars.remove(b);
    vars.remove_inner(c);
    vars.remove_inner(root);
    vars.remove(ScopeRef(77));
    assert!(!vars.is_free(root));

    let e = vars.new_child(d);
    let f = vars.new_child(d);
    assert_eq!(e, c);
    assert_eq!(f, b);
    assert_eq!(vars.parent(e), d);
    assert_eq!(vars.get(f, "x"), None);
    let g = vars.new_child(root);
    assert_eq!(g, ScopeRef(5));
    assert_eq!(vars.len(), 6);
}

#[test]
fn a_scope_hangs_below_a_scope_in_use() {
    let mut vars = VarSpace::new();
    let root = vars.root();
    let a = vars.new_child(root);
    let b = vars.new_child(a);
    vars.remove(a);
    assert!(!vars.is_live(a));
    assert!(!vars.is_live(b));
    assert!(vars.is_live(root));
    assert!(!vars.is_live(ScopeRef(77)));
    assert!(!vars.is_free(ScopeRef(77)));

    vars.set(a, "x", num(1.0));
    assert_eq!(vars.get(a, "x"), None);

    let c = vars.new_child(a);
    assert_eq!(c, b);
    assert_eq!(vars.parent(c), root);
    let d = vars.new_child(ScopeRef(77));
    assert_eq!(d, a);
    assert_eq!(vars.parent(d), root);
    let e = vars.new_child(d);
    assert_eq!(vars.parent(e), d);
}

#[test]
fn captured_scopes_are_found_in_values() {
    let mut vars = VarSpace::new();
    let root = vars.root();
    let a = vars.new_child(root);
    let b = vars.new_child(a);
    let other = vars.new_child(root);
    let closure = Val::Lambda(false, b, vec![Val::Sym("lambda".to_string())]);
    assert!(vars.val_has_ancestor(b, &closure));
    assert!(vars.val_has_ancestor(a, &closure));
    assert!(vars.val_has_ancestor(root, &closure));
    assert!(!vars.val_has_ancestor(other, &closure));
    let nested = Val::List(vec![num(1.0), Val::List(vec![closure.clone()])]);
    assert!(vars.val_has_ancestor(a, &nested));
    assert!(!vars.val_has_ancestor(other, &nested));
    let inside = Val::Lambda(false, other, vec![closure.clone()]);
    assert!(vars.val_has_ancestor(a, &inside));
    assert!(vars.val_has_ancestor(other, &inside));
    assert!(!vars.val_has_ancestor(a, &num(1.0)));
    assert!(vars.vals_have_ancestor(a, &vec![num(1.0), closure.clone()]));
    assert!(!vars.vals_have_ancestor(a, &vec![]));

    assert!(!vars.binds_reference(a));
    vars.set(other, "f", closure.clone());
    assert!(vars.binds_reference(a));
    assert!(vars.binds_reference(b));
    assert!(!vars.binds_reference(other));
    vars.set(other, "f", num(0.0));
    vars.set(b, "g", closure);
    assert!(!vars.binds_reference(a));
}

#[test]
fn scopes_in_use_are_kept() {
    let mut state = State::new();
    let s = &mut state;
    eval_s(&p("(define (make x) (lambda () x))"), s);
    eval_s(&p("(define held (make 1))"), s);
    let held = match s.get_var(&"held".to_string()) {
        Some(Val::Lambda(_, scope, _)) => *scope,
        _ => panic!("held is a closure"),
    };
    assert!(s.references(held));
    assert!(!s.vars.is_free(held));
    s.release(held);
    assert!(!s.vars.is_free(held));
    assert_eq!(eval_s(&p("(held)"), s), num(1.0));

    eval_s(&p("(define held ())"), s);
    assert!(!s.references(held));
    s.release(held);
    assert!(s.vars.is_free(held));
    s.release(s.vars.root());
    assert!(!s.vars.is_free(s.vars.root()));
}

#[test]
fn the_measure_of_memory() {
    let mut vars = VarSpace::new();
    let handle = std::mem::size_of::<ScopeRef>();
    assert_eq!(vars.memory_usage(), handle);
    let root = vars.root();
    vars.set(root, "fib", p("(lambda (n) (if (< n 2) n (+ (fib (- n 1)) (fib (- n 2)))))"));
    assert_eq!(vars.memory_usage(), handle + 74);
    let a = vars.new_child(root);
    vars.set(a, "x", num(1.0));
    assert_eq!(vars.memory_usage(), 2 * handle + 74 + 5);
    vars.remove(a);
    assert_eq!(vars.memory_usage(), handle + 74);
    assert_eq!(num(1.0).memory_usage(), 4);
    assert_eq!(Val::Sym("abc".to_string()).memory_usage(), 3);
    assert_eq!(Val::String("héllo".to_string()).memory_usage(), 6);
    assert_eq!(Val::Message("ask".to_string()).memory_usage(), 3);
    assert_eq!(Val::nil().memory_usage(), 4);
    assert_eq!(p("(a (b) 1)").memory_usage(), 4 + 1 + (4 + 1) + 4);
}

#[test]
fn the_description_of_scopes() {
    let mut vars = VarSpace::new();
    let root = vars.root();
    let a = vars.new_child(root);
    vars.set(root, "x", num(1.0));
    vars.set(a, "name", p("(a \"b\")"));
    vars.set(a, "other", Val::Sym("s".to_string()));
    assert_eq!(vars.describe(), "0: -> 0\n  x = 1\n1: -> 0\n  name = (a \"b\")\n  other = s\n");
    let state = State::new();
    assert_eq!(state.describe(), "0: -> 0\n");
    assert_eq!(state.memory_usage(), state.vars.memory_usage());
}
