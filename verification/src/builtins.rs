//! The native procedures: what each does to the machine when it is applied,
//! and the code that does it.

use crate::exec::{Machine, State};
use crate::number;
use crate::number::{Arith, Order};
use crate::variables::pairs;
use crate::val::{copy_vals, lemma_lambda_view, lemma_list_view, tail, terms, Native, Term, Val};
use vstd::prelude::*;
use vstd::string::StringExecFns;

verus! {

/// `(quote x)`: the argument as it stands.
pub open spec fn quote(m: Machine, args: Seq<Term>) -> Machine {
    if args.len() == 0 {
        m.return_stackframe(Term::nil())
    } else {
        m.return_stackframe(args[0])
    }
}

/// `(lambda params expr...)`: a closure over the active scope.
pub open spec fn lambda(m: Machine, args: Seq<Term>) -> Machine {
    m.return_stackframe(Term::Lambda(false, m.get_var_ref(), seq![Term::Sym("lambda"@)] + args))
}

/// The value that a definition binds to a name: a symbol is looked up and
/// stands for itself where it is unbound, anything else stands as it is.
pub open spec fn resolved(m: Machine, val: Term) -> Term {
    match val {
        Term::Sym(name) => match m.get_var(name) {
            Some(v) => v,
            None => val,
        },
        _ => val,
    }
}

/// `(define name expr)` binds the value of the expression two scopes up; a
/// form that is not yet evaluated is evaluated first, in a frame of its own.
/// `(define (name param...) expr)` binds a closure over the active scope.
pub open spec fn define(m: Machine, args: Seq<Term>) -> Machine {
    if args.len() == 0 {
        m.return_stackframe(Term::nil())
    } else {
        let val = if args.len() > 1 {
            args[1]
        } else {
            Term::nil()
        };
        match args[0] {
            Term::Sym(name) => match val {
                Term::List(list) => if list.len() == 0 {
                    m.set_var(name, Term::nil()).return_stackframe(Term::nil())
                } else if m.stack.len() > 0 && m.stack.last().pc <= 2 {
                    m.set_pc(2).add_stackframe(list)
                } else {
                    m.set_var(name, val).return_stackframe(Term::nil())
                },
                _ => m.set_var(name, resolved(m, val)).return_stackframe(Term::nil()),
            },
            Term::List(call) => if call.len() > 0 && call[0] is Sym {
                m.set_var(
                    call[0]->Sym_0,
                    Term::Lambda(
                        false,
                        m.get_var_ref(),
                        seq![Term::Sym("lambda"@), Term::List(call.subrange(1, call.len() as int)), val],
                    ),
                ).return_stackframe(Term::nil())
            } else {
                m.return_stackframe(Term::nil())
            },
            _ => m.return_stackframe(Term::nil()),
        }
    }
}

/// `(define-syntax name form)` binds a macro over the active scope, made of
/// the form as it stands. `(define-syntax (name param...) expr)` binds the
/// list `(lambda (param...) expr)`.
pub open spec fn define_syntax(m: Machine, args: Seq<Term>) -> Machine {
    if args.len() == 0 {
        m.return_stackframe(Term::nil())
    } else {
        let val = if args.len() > 1 {
            match args[1] {
                Term::List(list) => Term::Lambda(true, m.get_var_ref(), list),
                _ => args[1],
            }
        } else {
            Term::nil()
        };
        match args[0] {
            Term::Sym(name) => m.set_var(name, resolved(m, val)).return_stackframe(Term::nil()),
            Term::List(call) => if call.len() > 0 && call[0] is Sym {
                m.set_var(
                    call[0]->Sym_0,
                    Term::List(
                        seq![Term::Sym("lambda"@), Term::List(call.subrange(1, call.len() as int)), val],
                    ),
                ).return_stackframe(Term::nil())
            } else {
                m.return_stackframe(Term::nil())
            },
            _ => m.return_stackframe(Term::nil()),
        }
    }
}

/// `(eval expr...)`: the arguments, which are evaluated already, are
/// evaluated once more, in sequence.
pub open spec fn eval(m: Machine, args: Seq<Term>) -> Machine {
    if args.len() == 0 {
        m.return_stackframe(Term::nil())
    } else {
        m.replace_stackframe(seq![Term::Sym("do"@)] + args)
    }
}

/// The argument of a conditional or nil where it is missing.
pub open spec fn branch(args: Seq<Term>, i: int) -> Term {
    if i < args.len() {
        args[i]
    } else {
        Term::nil()
    }
}

/// The end of a conditional: a form takes the place of the frame, a symbol is
/// looked up, anything else is the value.
pub open spec fn choose_branch(m: Machine, val: Term) -> Machine {
    match val {
        Term::List(list) => m.replace_stackframe(list),
        _ => m.return_stackframe(resolved(m, val)),
    }
}

/// `(if cond then else)`. A condition that is a form is evaluated first, in
/// a frame of its own; once its value stands in its place, nil chooses the
/// third argument and anything else the second. A condition that is a
/// symbol is looked up: bound to nil it chooses the third argument, bound to
/// anything else the second, and unbound it stands for itself, which is not
/// nil, and chooses the second.
pub open spec fn if_(m: Machine, args: Seq<Term>) -> Machine {
    if args.len() == 0 {
        m.return_stackframe(Term::nil())
    } else {
        let pc = if m.stack.len() > 0 {
            m.stack.last().pc
        } else {
            0
        };
        match args[0] {
            Term::List(list) => if list.len() == 0 {
                choose_branch(m, branch(args, 2))
            } else if pc <= 1 {
                m.set_pc(1).add_stackframe(list)
            } else {
                choose_branch(m, branch(args, 1))
            },
            Term::Sym(name) => if pc <= 1 {
                let truth = match m.get_var(name) {
                    Some(v) => !v.is_nil(),
                    None => true,
                };
                choose_branch(
                    m.set_pc(2),
                    if truth {
                        branch(args, 1)
                    } else {
                        branch(args, 2)
                    },
                )
            } else {
                choose_branch(m, branch(args, 1))
            },
            _ => choose_branch(m, branch(args, 1)),
        }
    }
}

/// The form of the call that waits for the host to read a file.
pub open spec fn load_request(filename: Seq<char>) -> Seq<Term> {
    seq![Term::Message("load"@), Term::Text(filename)]
}

/// `(load "file")`: asks the host to print that the file is being loaded and
/// leaves the call pending as a message named `load`, with the file name as
/// its argument. The host answers by replacing the frame with the
/// expressions of the file, or by returning nil.
pub open spec fn load(m: Machine, args: Seq<Term>) -> Machine {
    if args.len() == 0 {
        m.return_stackframe(Term::nil())
    } else {
        match args[0] {
            Term::Text(filename) => m.print("Loading file: "@ + filename).replace_stackframe(
                load_request(filename),
            ).set_pc(2),
            _ => m.print("Could not load file: "@ + args[0].text()).return_stackframe(Term::nil()),
        }
    }
}

/// `(car list)`: the first element; nil for anything but a list with
/// elements.
pub open spec fn car(m: Machine, args: Seq<Term>) -> Machine {
    m.return_stackframe(
        if args.len() > 0 && args[0] is List && args[0]->List_0.len() > 0 {
            args[0]->List_0[0]
        } else {
            Term::nil()
        },
    )
}

/// `(cdr list)`: the list without its first element; nil for anything but a
/// list with elements.
pub open spec fn cdr(m: Machine, args: Seq<Term>) -> Machine {
    m.return_stackframe(
        if args.len() > 0 && args[0] is List && args[0]->List_0.len() > 0 {
            Term::List(args[0]->List_0.subrange(1, args[0]->List_0.len() as int))
        } else {
            Term::nil()
        },
    )
}

/// `(cons x list)`: the list with `x` in front; nil unless the second
/// argument is a list.
pub open spec fn cons(m: Machine, args: Seq<Term>) -> Machine {
    m.return_stackframe(
        if args.len() > 1 && args[1] is List {
            Term::List(seq![args[0]] + args[1]->List_0)
        } else {
            Term::nil()
        },
    )
}

/// `(do expr...)`: the value of the last argument.
pub open spec fn do_(m: Machine, args: Seq<Term>) -> Machine {
    m.return_stackframe(
        if args.len() == 0 {
            Term::nil()
        } else {
            args.last()
        },
    )
}

/// The number that an argument counts as where a number is wanted first.
pub open spec fn first_number(args: Seq<Term>) -> u32 {
    match args[0] {
        Term::Num(x) => x,
        _ => number::ZERO,
    }
}

/// The operation folded from the left over the numbers among the arguments
/// of index `from` up to `n`, starting with `start`. Arguments that are no
/// numbers are passed over.
pub open spec fn folded(op: Arith, args: Seq<Term>, from: int, n: int, start: u32) -> u32
    decreases n - from,
{
    if n <= from {
        start
    } else {
        let acc = folded(op, args, from, n - 1, start);
        match args[n - 1] {
            Term::Num(x) => op.apply(acc, x),
            _ => acc,
        }
    }
}

/// `(+ x...)`: the sum of the numbers, from 0.
pub open spec fn plus(m: Machine, args: Seq<Term>) -> Machine {
    m.return_stackframe(Term::Num(folded(Arith::Plus, args, 0, args.len() as int, number::ZERO)))
}

/// `(* x...)`: the product of the numbers, from 1.
pub open spec fn mult(m: Machine, args: Seq<Term>) -> Machine {
    m.return_stackframe(Term::Num(folded(Arith::Times, args, 0, args.len() as int, number::ONE)))
}

/// `(- x y...)`: the first number less the others; `(- x)` is `x` negated and
/// `(-)` is 0.
pub open spec fn minus(m: Machine, args: Seq<Term>) -> Machine {
    m.return_stackframe(
        Term::Num(
            if args.len() == 0 {
                number::ZERO
            } else if args.len() == 1 {
                number::negated(first_number(args))
            } else {
                folded(Arith::Minus, args, 1, args.len() as int, first_number(args))
            },
        ),
    )
}

/// `(/ x y...)`: the first number divided by the others; `(/ x)` is 1 over
/// `x` and `(/)` is 0.
pub open spec fn div(m: Machine, args: Seq<Term>) -> Machine {
    m.return_stackframe(
        Term::Num(
            if args.len() == 0 {
                number::ZERO
            } else if args.len() == 1 {
                number::quotient(number::ONE, first_number(args))
            } else {
                folded(Arith::Over, args, 1, args.len() as int, first_number(args))
            },
        ),
    )
}

/// `(% x y...)`: the remainder of the first number by the others in turn;
/// `(%)` is 0.
pub open spec fn modulo(m: Machine, args: Seq<Term>) -> Machine {
    m.return_stackframe(
        Term::Num(
            if args.len() == 0 {
                number::ZERO
            } else {
                folded(Arith::Modulo, args, 1, args.len() as int, first_number(args))
            },
        ),
    )
}

/// The truth value of the language.
pub open spec fn truth_of(b: bool) -> Term {
    if b {
        Term::truth()
    } else {
        Term::nil()
    }
}

/// `(= x y...)`: whether every further argument equals the first.
pub open spec fn eq(m: Machine, args: Seq<Term>) -> Machine {
    m.return_stackframe(truth_of(forall|i: int| 1 <= i < args.len() ==> args[0].same(#[trigger] args[i])))
}

/// Whether the numbers among the arguments from index `i` on form a chain
/// behind `prev`: each is admitted behind the number before it.
pub open spec fn chained(order: Order, args: Seq<Term>, i: int, prev: u32) -> bool
    decreases args.len() - i,
{
    if i >= args.len() {
        true
    } else {
        match args[i] {
            Term::Num(x) => order.admits(prev, x) && chained(order, args, i + 1, x),
            _ => chained(order, args, i + 1, prev),
        }
    }
}

/// Whether a comparison holds of its arguments: of one argument always; of
/// none for `<=` and `>=`, not for `<` and `>`; of more if the numbers among
/// them form a chain behind the first.
pub open spec fn compared(order: Order, args: Seq<Term>) -> bool {
    if args.len() == 0 {
        order.holds_of_none()
    } else {
        args.len() == 1 || chained(order, args, 1, first_number(args))
    }
}

/// `(< x y...)` and its like: whether the comparison holds of the arguments.
pub open spec fn compare(order: Order, m: Machine, args: Seq<Term>) -> Machine {
    m.return_stackframe(truth_of(compared(order, args)))
}

/// `(list? x)`.
pub open spec fn type_list(m: Machine, args: Seq<Term>) -> Machine {
    m.return_stackframe(truth_of(args.len() > 0 && args[0] is List))
}

/// `(symbol? x)`.
pub open spec fn type_sym(m: Machine, args: Seq<Term>) -> Machine {
    m.return_stackframe(truth_of(args.len() > 0 && args[0] is Sym))
}

/// `(string? x)`.
pub open spec fn type_string(m: Machine, args: Seq<Term>) -> Machine {
    m.return_stackframe(truth_of(args.len() > 0 && args[0] is Text))
}

/// `(number? x)`.
pub open spec fn type_num(m: Machine, args: Seq<Term>) -> Machine {
    m.return_stackframe(truth_of(args.len() > 0 && args[0] is Num))
}

/// `(lambda? x)`: a closure, or a list that starts with the symbol `lambda`.
pub open spec fn type_lambda(m: Machine, args: Seq<Term>) -> Machine {
    m.return_stackframe(
        truth_of(
            args.len() > 0 && (args[0] is Lambda || (args[0] is List && args[0].is_callable())),
        ),
    )
}

/// `(not x)`: true for nil and without an argument.
pub open spec fn not(m: Machine, args: Seq<Term>) -> Machine {
    m.return_stackframe(truth_of(args.len() == 0 || args[0].is_nil()))
}

/// `(event x...)`: queues the list of the arguments as an event.
pub open spec fn event(m: Machine, args: Seq<Term>) -> Machine {
    m.send_event(Term::List(args)).return_stackframe(Term::nil())
}

/// `(apply f list)`: the frame starts over on `f` followed by the elements of
/// the list.
pub open spec fn apply(m: Machine, args: Seq<Term>) -> Machine {
    if args.len() == 0 {
        m.return_stackframe(Term::nil())
    } else {
        m.replace_stackframe(
            if args.len() > 1 && args[1] is List {
                seq![args[0]] + args[1]->List_0
            } else {
                seq![args[0]]
            },
        )
    }
}

/// The text that `format` makes of one argument: a name or a string as it
/// is, anything else in its printed form.
pub open spec fn plain(arg: Term) -> Seq<char> {
    match arg {
        Term::Sym(s) => s,
        Term::Text(s) => s,
        _ => arg.text(),
    }
}

/// The texts of the first `n` arguments, one behind the other.
pub open spec fn formatted(args: Seq<Term>, n: int) -> Seq<char>
    decreases n,
{
    if n <= 0 {
        Seq::empty()
    } else {
        formatted(args, n - 1) + plain(args[n - 1])
    }
}

/// `(format x...)`: the string made of the texts of the arguments.
pub open spec fn format(m: Machine, args: Seq<Term>) -> Machine {
    m.return_stackframe(Term::Text(formatted(args, args.len() as int)))
}

/// `(set-program prog)`: sets the program that takes over when the stack runs
/// empty.
pub open spec fn set_program(m: Machine, args: Seq<Term>) -> Machine {
    if args.len() == 0 {
        m.return_stackframe(Term::nil())
    } else {
        m.set_main_program(args[0]).return_stackframe(Term::nil())
    }
}

/// What a native procedure does to the machine when it is applied to
/// `args`, with the call in the active frame.
pub open spec fn native(m: Machine, procedure: Native, args: Seq<Term>) -> Machine {
    match procedure {
        Native::Quote => quote(m, args),
        Native::Lambda => lambda(m, args),
        Native::Define => define(m, args),
        Native::DefineSyntax => define_syntax(m, args),
        Native::Eval => eval(m, args),
        Native::If => if_(m, args),
        Native::Load => load(m, args),
        Native::Car => car(m, args),
        Native::Cdr => cdr(m, args),
        Native::Cons => cons(m, args),
        Native::Do => do_(m, args),
        Native::Plus => plus(m, args),
        Native::Minus => minus(m, args),
        Native::Mult => mult(m, args),
        Native::Div => div(m, args),
        Native::Modulo => modulo(m, args),
        Native::Eq => eq(m, args),
        Native::Less => compare(Order::Less, m, args),
        Native::Greater => compare(Order::Greater, m, args),
        Native::LessEq => compare(Order::LessEq, m, args),
        Native::GreaterEq => compare(Order::GreaterEq, m, args),
        Native::TypeList => type_list(m, args),
        Native::TypeSym => type_sym(m, args),
        Native::TypeString => type_string(m, args),
        Native::TypeNum => type_num(m, args),
        Native::TypeLambda => type_lambda(m, args),
        Native::Not => not(m, args),
        Native::Event => event(m, args),
        Native::Apply => apply(m, args),
        Native::Format => format(m, args),
        Native::SetProgram => set_program(m, args),
    }
}


/// Runs `quote`.
pub fn quote_cb(args: Vec<Val>, state: &mut State)
    requires
        old(state)@.wf(),
    ensures
        final(state)@ == quote(old(state)@, terms(args@)),
        final(state)@.wf(),
{
    if args.len() == 0 {
        state.return_stackframe(Val::nil());
    } else {
        state.return_stackframe(args[0].clone());
    }
}

/// The list that starts with the symbol `head` and goes on with `rest`.
pub fn headed(head: &str, rest: &Vec<Val>) -> (r: Vec<Val>)
    ensures
        terms(r@) == seq![Term::Sym(head@)] + terms(rest@),
{
    let mut list: Vec<Val> = Vec::new();
    list.push(Val::sym(head));
    let mut i: usize = 0;
    while i < rest.len()
        invariant
            i <= rest.len(),
            list.len() == i + 1,
            list@[0]@ == Term::Sym(head@),
            forall|j: int| 0 <= j < i ==> list@[j + 1]@ == rest@[j]@,
        decreases rest.len() - i,
    {
        list.push(rest[i].clone());
        i += 1;
    }
    assert(terms(list@) =~= seq![Term::Sym(head@)] + terms(rest@));
    list
}

/// The list that starts with `first` and goes on with `rest`.
pub fn fronted(first: Val, rest: &Vec<Val>) -> (r: Vec<Val>)
    ensures
        terms(r@) == seq![first@] + terms(rest@),
{
    let mut list: Vec<Val> = Vec::new();
    list.push(first);
    let mut i: usize = 0;
    while i < rest.len()
        invariant
            i <= rest.len(),
            list.len() == i + 1,
            list@[0]@ == first@,
            forall|j: int| 0 <= j < i ==> list@[j + 1]@ == rest@[j]@,
        decreases rest.len() - i,
    {
        list.push(rest[i].clone());
        i += 1;
    }
    assert(terms(list@) =~= seq![first@] + terms(rest@));
    list
}

/// Runs `lambda`.
pub fn lambda_cb(args: Vec<Val>, state: &mut State)
    requires
        old(state)@.wf(),
    ensures
        final(state)@ == lambda(old(state)@, terms(args@)),
        final(state)@.wf(),
{
    let list = headed("lambda", &args);
    let scope = state.get_var_ref();
    proof {
        lemma_lambda_view(false, scope, list);
    }
    state.return_stackframe(Val::Lambda(false, scope, list));
}

/// The value that a definition binds to a name.
pub fn resolve(state: &State, val: &Val) -> (r: Val)
    requires
        state@.wf(),
    ensures
        r@ == resolved(state@, val@),
{
    match val {
        Val::Sym(name) => match state.get_var(name) {
            Some(v) => v.clone(),
            None => val.clone(),
        },
        _ => val.clone(),
    }
}

/// The form `(lambda (param...) val)` of a definition whose left side is
/// the call `(name param...)`.
fn lambda_form(call: &Vec<Val>, val: Val) -> (r: Vec<Val>)
    requires
        call.len() > 0,
    ensures
        terms(r@) == seq![
            Term::Sym("lambda"@),
            Term::List(terms(call@).subrange(1, call.len() as int)),
            val@,
        ],
{
    let params = tail(call, 1);
    proof {
        lemma_list_view(params);
    }
    let form = vec![Val::sym("lambda"), Val::List(params), val];
    assert(terms(form@) =~= seq![
        Term::Sym("lambda"@),
        Term::List(terms(call@).subrange(1, call.len() as int)),
        val@,
    ]);
    form
}

/// Runs `define`.
pub fn define_cb(args: Vec<Val>, state: &mut State)
    requires
        old(state)@.wf(),
        old(state)@.stack.len() > 0,
    ensures
        final(state)@ == define(old(state)@, terms(args@)),
        final(state)@.wf(),
{
    if args.len() == 0 {
        state.return_stackframe(Val::nil());
        return ;
    }
    let val = if args.len() > 1 {
        args[1].clone()
    } else {
        Val::nil()
    };
    match &args[0] {
        Val::Sym(sym) => {
            let bound = match &val {
                Val::List(list) => {
                    proof {
                        lemma_list_view(*list);
                    }
                    if list.len() == 0 {
                        Val::nil()
                    } else {
                        if state.stack[state.stack.len() - 1].pc <= 2 {
                            state.set_pc(2);
                            state.add_stackframe(copy_vals(list));
                            return ;
                        } else {
                            val.clone()
                        }
                    }
                },
                _ => resolve(state, &val),
            };
            state.set_var(sym, bound);
        },
        Val::List(call) => {
            proof {
                lemma_list_view(*call);
            }
            if call.len() > 0 {
                let scope = state.get_var_ref();
                let form = lambda_form(call, val);
                proof {
                    lemma_lambda_view(false, scope, form);
                }
                match &call[0] {
                    Val::Sym(sym) => {
                        state.set_var(sym, Val::Lambda(false, scope, form));
                    },
                    _ => {},
                }
            }
        },
        _ => {},
    }
    state.return_stackframe(Val::nil());
}

/// Runs `define-syntax`.
pub fn define_syntax_cb(args: Vec<Val>, state: &mut State)
    requires
        old(state)@.wf(),
        old(state)@.stack.len() > 0,
    ensures
        final(state)@ == define_syntax(old(state)@, terms(args@)),
        final(state)@.wf(),
{
    if args.len() == 0 {
        state.return_stackframe(Val::nil());
        return ;
    }
    let val = if args.len() > 1 {
        match &args[1] {
            Val::List(list) => {
                let scope = state.get_var_ref();
                let form = copy_vals(list);
                proof {
                    lemma_list_view(*list);
                    lemma_lambda_view(true, scope, form);
                }
                Val::Lambda(true, scope, form)
            },
            _ => args[1].clone(),
        }
    } else {
        Val::nil()
    };
    match &args[0] {
        Val::Sym(sym) => {
            let bound = resolve(state, &val);
            state.set_var(sym, bound);
        },
        Val::List(call) => {
            proof {
                lemma_list_view(*call);
            }
            if call.len() > 0 {
                let form = lambda_form(call, val);
                proof {
                    lemma_list_view(form);
                }
                match &call[0] {
                    Val::Sym(sym) => {
                        state.set_var(sym, Val::List(form));
                    },
                    _ => {},
                }
            }
        },
        _ => {},
    }
    state.return_stackframe(Val::nil());
}

/// Runs `eval`.
pub fn eval_cb(args: Vec<Val>, state: &mut State)
    requires
        old(state)@.wf(),
    ensures
        final(state)@ == eval(old(state)@, terms(args@)),
        final(state)@.wf(),
{
    if args.len() == 0 {
        state.return_stackframe(Val::nil());
    } else {
        state.replace_stackframe(headed("do", &args));
    }
}

/// The argument of a conditional, or nil where it is missing.
fn branch_of(args: &Vec<Val>, i: usize) -> (r: Val)
    ensures
        r@ == branch(terms(args@), i as int),
{
    if i < args.len() {
        args[i].clone()
    } else {
        Val::nil()
    }
}

/// Ends a conditional with the branch it chose.
fn pick_branch(state: &mut State, val: Val)
    requires
        old(state)@.wf(),
    ensures
        final(state)@ == choose_branch(old(state)@, val@),
        final(state)@.wf(),
{
    match &val {
        Val::List(list) => {
            proof {
                lemma_list_view(*list);
            }
            state.replace_stackframe(copy_vals(list));
        },
        _ => {
            let v = resolve(state, &val);
            state.return_stackframe(v);
        },
    }
}

/// Runs `if`.
pub fn if_cb(args: Vec<Val>, state: &mut State)
    requires
        old(state)@.wf(),
        old(state)@.stack.len() > 0,
    ensures
        final(state)@ == if_(old(state)@, terms(args@)),
        final(state)@.wf(),
{
    if args.len() == 0 {
        state.return_stackframe(Val::nil());
        return ;
    }
    let pc = state.stack[state.stack.len() - 1].pc;
    let cond = match &args[0] {
        Val::List(list) => {
            proof {
                lemma_list_view(*list);
            }
            if list.len() == 0 {
                false
            } else {
                if pc <= 1 {
                    state.set_pc(1);
                    state.add_stackframe(copy_vals(list));
                    return ;
                } else {
                    true
                }
            }
        },
        Val::Sym(sym) => {
            if pc <= 1 {
                state.set_pc(2);
                match state.get_var(sym) {
                    Some(val) => !val.is_nil(),
                    None => true,
                }
            } else {
                true
            }
        },
        _ => true,
    };
    let val = if cond {
        branch_of(&args, 1)
    } else {
        branch_of(&args, 2)
    };
    pick_branch(state, val);
}

/// Runs `load`.
pub fn load_cb(args: Vec<Val>, state: &mut State)
    requires
        old(state)@.wf(),
    ensures
        final(state)@ == load(old(state)@, terms(args@)),
        final(state)@.wf(),
{
    if args.len() == 0 {
        state.return_stackframe(Val::nil());
        return ;
    }
    match &args[0] {
        Val::String(filename) => {
            let mut text = "Loading file: ".to_owned();
            text.append(filename.as_str());
            state.print(text);
            let request = vec![Val::Message("load".to_owned()), Val::String(filename.clone())];
            assert(terms(request@) =~= load_request(filename@));
            state.replace_stackframe(request);
            state.set_pc(2);
        },
        _ => {
            let mut text = "Could not load file: ".to_owned();
            let shown = args[0].to_string();
            text.append(shown.as_str());
            state.print_error(text);
            state.return_stackframe(Val::nil());
        },
    }
}

/// Runs `car`.
pub fn car_cb(args: Vec<Val>, state: &mut State)
    requires
        old(state)@.wf(),
    ensures
        final(state)@ == car(old(state)@, terms(args@)),
        final(state)@.wf(),
{
    if args.len() == 0 {
        state.return_stackframe(Val::nil());
        return ;
    }
    match &args[0] {
        Val::List(list) => {
            proof {
                lemma_list_view(*list);
            }
            if list.len() == 0 {
                state.return_stackframe(Val::nil());
            } else {
                state.return_stackframe(list[0].clone());
            }
        },
        _ => {
            state.return_stackframe(Val::nil());
        },
    }
}

/// Runs `cdr`.
pub fn cdr_cb(args: Vec<Val>, state: &mut State)
    requires
        old(state)@.wf(),
    ensures
        final(state)@ == cdr(old(state)@, terms(args@)),
        final(state)@.wf(),
{
    if args.len() == 0 {
        state.return_stackframe(Val::nil());
        return ;
    }
    match &args[0] {
        Val::List(list) => {
            proof {
                lemma_list_view(*list);
            }
            if list.len() == 0 {
                state.return_stackframe(Val::nil());
            } else {
                state.return_stackframe(Val::list(tail(list, 1)));
            }
        },
        _ => {
            state.return_stackframe(Val::nil());
        },
    }
}

/// Runs `cons`.
pub fn cons_cb(args: Vec<Val>, state: &mut State)
    requires
        old(state)@.wf(),
    ensures
        final(state)@ == cons(old(state)@, terms(args@)),
        final(state)@.wf(),
{
    if args.len() < 2 {
        state.return_stackframe(Val::nil());
        return ;
    }
    match &args[1] {
        Val::List(list) => {
            proof {
                lemma_list_view(*list);
            }
            state.return_stackframe(Val::list(fronted(args[0].clone(), list)));
        },
        _ => {
            state.return_stackframe(Val::nil());
        },
    }
}

/// Runs `do`.
pub fn do_cb(args: Vec<Val>, state: &mut State)
    requires
        old(state)@.wf(),
    ensures
        final(state)@ == do_(old(state)@, terms(args@)),
        final(state)@.wf(),
{
    if args.len() == 0 {
        state.return_stackframe(Val::nil());
    } else {
        state.return_stackframe(args[args.len() - 1].clone());
    }
}

/// The number that the first argument counts as.
fn first_of(args: &Vec<Val>) -> (r: u32)
    requires
        args.len() > 0,
    ensures
        r == first_number(terms(args@)),
{
    match &args[0] {
        Val::Num(num) => *num,
        _ => number::ZERO,
    }
}

/// Folds the operation over the numbers among the arguments from `from` on.
fn fold(op: Arith, args: &Vec<Val>, from: usize, start: u32) -> (r: u32)
    requires
        from <= args.len(),
    ensures
        r == folded(op, terms(args@), from as int, args.len() as int, start),
{
    let mut acc = start;
    let mut i: usize = from;
    while i < args.len()
        invariant
            from <= i <= args.len(),
            acc == folded(op, terms(args@), from as int, i as int, start),
        decreases args.len() - i,
    {
        match &args[i] {
            Val::Num(num) => {
                acc = op.calc(acc, *num);
            },
            _ => {},
        }
        i += 1;
    }
    acc
}

/// Runs `+`.
pub fn plus_cb(args: Vec<Val>, state: &mut State)
    requires
        old(state)@.wf(),
    ensures
        final(state)@ == plus(old(state)@, terms(args@)),
        final(state)@.wf(),
{
    let sum = fold(Arith::Plus, &args, 0, number::ZERO);
    state.return_stackframe(Val::Num(sum));
}

/// Runs `*`.
pub fn mult_cb(args: Vec<Val>, state: &mut State)
    requires
        old(state)@.wf(),
    ensures
        final(state)@ == mult(old(state)@, terms(args@)),
        final(state)@.wf(),
{
    let product = fold(Arith::Times, &args, 0, number::ONE);
    state.return_stackframe(Val::Num(product));
}

/// Runs `-`.
pub fn minus_cb(args: Vec<Val>, state: &mut State)
    requires
        old(state)@.wf(),
    ensures
        final(state)@ == minus(old(state)@, terms(args@)),
        final(state)@.wf(),
{
    if args.len() == 0 {
        state.return_stackframe(Val::Num(number::ZERO));
        return ;
    }
    let first = first_of(&args);
    if args.len() == 1 {
        state.return_stackframe(Val::Num(number::neg(first)));
        return ;
    }
    let rest = fold(Arith::Minus, &args, 1, first);
    state.return_stackframe(Val::Num(rest));
}

/// Runs `/`.
pub fn div_cb(args: Vec<Val>, state: &mut State)
    requires
        old(state)@.wf(),
    ensures
        final(state)@ == div(old(state)@, terms(args@)),
        final(state)@.wf(),
{
    if args.len() == 0 {
        state.return_stackframe(Val::Num(number::ZERO));
        return ;
    }
    let first = first_of(&args);
    if args.len() == 1 {
        state.return_stackframe(Val::Num(Arith::Over.calc(number::ONE, first)));
        return ;
    }
    let rest = fold(Arith::Over, &args, 1, first);
    state.return_stackframe(Val::Num(rest));
}

/// Runs `%`.
pub fn modulo_cb(args: Vec<Val>, state: &mut State)
    requires
        old(state)@.wf(),
    ensures
        final(state)@ == modulo(old(state)@, terms(args@)),
        final(state)@.wf(),
{
    if args.len() == 0 {
        state.return_stackframe(Val::Num(number::ZERO));
        return ;
    }
    let first = first_of(&args);
    let rest = fold(Arith::Modulo, &args, 1, first);
    state.return_stackframe(Val::Num(rest));
}

/// The truth value of the language.
fn truth(b: bool) -> (r: Val)
    ensures
        r@ == truth_of(b),
{
    if b {
        Val::truth()
    } else {
        Val::lies()
    }
}

/// Runs `=`.
pub fn eq_cb(args: Vec<Val>, state: &mut State)
    requires
        old(state)@.wf(),
    ensures
        final(state)@ == eq(old(state)@, terms(args@)),
        final(state)@.wf(),
{
    let mut i: usize = 1;
    while i < args.len()
        invariant
            1 <= i,
            *state == *old(state),
            state@.wf(),
            forall|j: int| 1 <= j < i && j < args.len() ==> terms(args@)[0].same(#[trigger] terms(args@)[j]),
        decreases args.len() - i,
    {
        if args[0] != args[i] {
            assert(!terms(args@)[0].same(terms(args@)[i as int]));
            state.return_stackframe(Val::nil());
            return ;
        }
        i += 1;
    }
    state.return_stackframe(Val::truth());
}

/// Whether the numbers among the arguments from index 1 on form a chain
/// behind the first.
fn chain(order: Order, args: &Vec<Val>) -> (r: bool)
    requires
        args.len() > 0,
    ensures
        r == chained(order, terms(args@), 1, first_number(terms(args@))),
{
    let mut prev = first_of(args);
    let mut i: usize = 1;
    while i < args.len()
        invariant
            1 <= i <= args.len(),
            chained(order, terms(args@), 1, first_number(terms(args@))) == chained(
                order,
                terms(args@),
                i as int,
                prev,
            ),
        decreases args.len() - i,
    {
        match &args[i] {
            Val::Num(num) => {
                if !order.test(prev, *num) {
                    return false;
                }
                prev = *num;
            },
            _ => {},
        }
        i += 1;
    }
    true
}

/// Runs one of `<`, `>`, `<=` and `>=`.
pub fn compare_cb(order: Order, args: Vec<Val>, state: &mut State)
    requires
        old(state)@.wf(),
    ensures
        final(state)@ == compare(order, old(state)@, terms(args@)),
        final(state)@.wf(),
{
    if args.len() == 0 {
        state.return_stackframe(truth(order.of_none()));
    } else if args.len() == 1 {
        state.return_stackframe(Val::truth());
    } else {
        let holds = chain(order, &args);
        state.return_stackframe(truth(holds));
    }
}

/// Runs `>`.
pub fn greater_cb(args: Vec<Val>, state: &mut State)
    requires
        old(state)@.wf(),
    ensures
        final(state)@ == compare(Order::Greater, old(state)@, terms(args@)),
        final(state)@.wf(),
{
    compare_cb(Order::Greater, args, state);
}

/// Runs `<`.
pub fn less_cb(args: Vec<Val>, state: &mut State)
    requires
        old(state)@.wf(),
    ensures
        final(state)@ == compare(Order::Less, old(state)@, terms(args@)),
        final(state)@.wf(),
{
    compare_cb(Order::Less, args, state);
}

/// Runs `>=`.
pub fn greater_eq_cb(args: Vec<Val>, state: &mut State)
    requires
        old(state)@.wf(),
    ensures
        final(state)@ == compare(Order::GreaterEq, old(state)@, terms(args@)),
        final(state)@.wf(),
{
    compare_cb(Order::GreaterEq, args, state);
}

/// Runs `<=`.
pub fn less_eq_cb(args: Vec<Val>, state: &mut State)
    requires
        old(state)@.wf(),
    ensures
        final(state)@ == compare(Order::LessEq, old(state)@, terms(args@)),
        final(state)@.wf(),
{
    compare_cb(Order::LessEq, args, state);
}

/// Runs `list?`.
pub fn type_list_cb(args: Vec<Val>, state: &mut State)
    requires
        old(state)@.wf(),
    ensures
        final(state)@ == type_list(old(state)@, terms(args@)),
        final(state)@.wf(),
{
    let is = args.len() > 0 && matches!(&args[0], Val::List(_));
    state.return_stackframe(truth(is));
}

/// Runs `symbol?`.
pub fn type_sym_cb(args: Vec<Val>, state: &mut State)
    requires
        old(state)@.wf(),
    ensures
        final(state)@ == type_sym(old(state)@, terms(args@)),
        final(state)@.wf(),
{
    let is = args.len() > 0 && matches!(&args[0], Val::Sym(_));
    state.return_stackframe(truth(is));
}

/// Runs `string?`.
pub fn type_string_cb(args: Vec<Val>, state: &mut State)
    requires
        old(state)@.wf(),
    ensures
        final(state)@ == type_string(old(state)@, terms(args@)),
        final(state)@.wf(),
{
    let is = args.len() > 0 && matches!(&args[0], Val::String(_));
    state.return_stackframe(truth(is));
}

/// Runs `number?`.
pub fn type_num_cb(args: Vec<Val>, state: &mut State)
    requires
        old(state)@.wf(),
    ensures
        final(state)@ == type_num(old(state)@, terms(args@)),
        final(state)@.wf(),
{
    let is = args.len() > 0 && matches!(&args[0], Val::Num(_));
    state.return_stackframe(truth(is));
}

/// Runs `lambda?`.
pub fn type_lambda_cb(args: Vec<Val>, state: &mut State)
    requires
        old(state)@.wf(),
    ensures
        final(state)@ == type_lambda(old(state)@, terms(args@)),
        final(state)@.wf(),
{
    if args.len() == 0 {
        state.return_stackframe(Val::lies());
    } else {
        match &args[0] {
            Val::Lambda(_, _, _) => state.return_stackframe(Val::truth()),
            Val::List(_) => {
                let is = args[0].is_callable();
                state.return_stackframe(truth(is));
            },
            _ => state.return_stackframe(Val::lies()),
        }
    }
}

/// Runs `not`.
pub fn not_cb(args: Vec<Val>, state: &mut State)
    requires
        old(state)@.wf(),
    ensures
        final(state)@ == not(old(state)@, terms(args@)),
        final(state)@.wf(),
{
    let is = args.len() == 0 || args[0].is_nil();
    state.return_stackframe(truth(is));
}

/// Runs `event`.
pub fn event_cb(args: Vec<Val>, state: &mut State)
    requires
        old(state)@.wf(),
    ensures
        final(state)@ == event(old(state)@, terms(args@)),
        final(state)@.wf(),
{
    state.send_event(Val::list(args));
    state.return_stackframe(Val::nil());
}

/// Runs `apply`.
pub fn apply_cb(args: Vec<Val>, state: &mut State)
    requires
        old(state)@.wf(),
    ensures
        final(state)@ == apply(old(state)@, terms(args@)),
        final(state)@.wf(),
{
    if args.len() == 0 {
        state.return_stackframe(Val::nil());
        return ;
    }
    let empty: Vec<Val> = Vec::new();
    let list = if args.len() > 1 {
        match &args[1] {
            Val::List(list2) => {
                proof {
                    lemma_list_view(*list2);
                }
                fronted(args[0].clone(), list2)
            },
            _ => fronted(args[0].clone(), &empty),
        }
    } else {
        fronted(args[0].clone(), &empty)
    };
    assert(seq![terms(args@)[0]] + terms(empty@) =~= seq![terms(args@)[0]]);
    state.replace_stackframe(list);
}

/// The text that `format` makes of one argument.
fn plain_text(arg: &Val) -> (r: String)
    ensures
        r@ == plain(arg@),
{
    match arg {
        Val::Sym(sym) => sym.clone(),
        Val::String(sym) => sym.clone(),
        _ => arg.to_string(),
    }
}

/// Runs `format`.
pub fn format_cb(args: Vec<Val>, state: &mut State)
    requires
        old(state)@.wf(),
    ensures
        final(state)@ == format(old(state)@, terms(args@)),
        final(state)@.wf(),
{
    let mut string = String::new();
    let mut i: usize = 0;
    while i < args.len()
        invariant
            i <= args.len(),
            string@ == formatted(terms(args@), i as int),
        decreases args.len() - i,
    {
        let piece = plain_text(&args[i]);
        string.append(piece.as_str());
        i += 1;
    }
    state.return_stackframe(Val::String(string));
}

/// Runs `set-program`.
pub fn set_program_cb(args: Vec<Val>, state: &mut State)
    requires
        old(state)@.wf(),
    ensures
        final(state)@ == set_program(old(state)@, terms(args@)),
        final(state)@.wf(),
{
    if args.len() == 0 {
        state.return_stackframe(Val::nil());
        return ;
    }
    state.set_main_program(args[0].clone());
    state.return_stackframe(Val::nil());
}

/// Applies a native procedure to `args`, with the call in the active frame.
pub fn run(procedure: Native, args: Vec<Val>, state: &mut State)
    requires
        old(state)@.wf(),
        old(state)@.stack.len() > 0,
    ensures
        final(state)@ == native(old(state)@, procedure, terms(args@)),
        final(state)@.wf(),
{
    match procedure {
        Native::Quote => quote_cb(args, state),
        Native::Lambda => lambda_cb(args, state),
        Native::Define => define_cb(args, state),
        Native::DefineSyntax => define_syntax_cb(args, state),
        Native::Eval => eval_cb(args, state),
        Native::If => if_cb(args, state),
        Native::Load => load_cb(args, state),
        Native::Car => car_cb(args, state),
        Native::Cdr => cdr_cb(args, state),
        Native::Cons => cons_cb(args, state),
        Native::Do => do_cb(args, state),
        Native::Plus => plus_cb(args, state),
        Native::Minus => minus_cb(args, state),
        Native::Mult => mult_cb(args, state),
        Native::Div => div_cb(args, state),
        Native::Modulo => modulo_cb(args, state),
        Native::Eq => eq_cb(args, state),
        Native::Less => less_cb(args, state),
        Native::Greater => greater_cb(args, state),
        Native::LessEq => less_eq_cb(args, state),
        Native::GreaterEq => greater_eq_cb(args, state),
        Native::TypeList => type_list_cb(args, state),
        Native::TypeSym => type_sym_cb(args, state),
        Native::TypeString => type_string_cb(args, state),
        Native::TypeNum => type_num_cb(args, state),
        Native::TypeLambda => type_lambda_cb(args, state),
        Native::Not => not_cb(args, state),
        Native::Event => event_cb(args, state),
        Native::Apply => apply_cb(args, state),
        Native::Format => format_cb(args, state),
        Native::SetProgram => set_program_cb(args, state),
    }
}


/// The binding of a name to a native procedure.
pub open spec fn entry_of(name: Seq<char>, special: bool, procedure: Native) -> (Seq<char>, Term) {
    (name, Term::Builtin(special, procedure))
}

/// The names of the native procedures and what they are bound to. The
/// procedures that take their arguments unevaluated are `quote`, `lambda`,
/// `define`, `define-syntax` and `if`.
pub open spec fn table() -> Seq<(Seq<char>, Term)> {
    seq![
        entry_of("quote"@, true, Native::Quote),
        entry_of("lambda"@, true, Native::Lambda),
        entry_of("define"@, true, Native::Define),
        entry_of("define-syntax"@, true, Native::DefineSyntax),
        entry_of("eval"@, false, Native::Eval),
        entry_of("if"@, true, Native::If),
        entry_of("load"@, false, Native::Load),
        entry_of("car"@, false, Native::Car),
        entry_of("cdr"@, false, Native::Cdr),
        entry_of("cons"@, false, Native::Cons),
        entry_of("do"@, false, Native::Do),
        entry_of("+"@, false, Native::Plus),
        entry_of("-"@, false, Native::Minus),
        entry_of("*"@, false, Native::Mult),
        entry_of("/"@, false, Native::Div),
        entry_of("%"@, false, Native::Modulo),
        entry_of("="@, false, Native::Eq),
        entry_of("<"@, false, Native::Less),
        entry_of(">"@, false, Native::Greater),
        entry_of("<="@, false, Native::LessEq),
        entry_of(">="@, false, Native::GreaterEq),
        entry_of("list?"@, false, Native::TypeList),
        entry_of("symbol?"@, false, Native::TypeSym),
        entry_of("string?"@, false, Native::TypeString),
        entry_of("number?"@, false, Native::TypeNum),
        entry_of("lambda?"@, false, Native::TypeLambda),
        entry_of("not"@, false, Native::Not),
        entry_of("event"@, false, Native::Event),
        entry_of("apply"@, false, Native::Apply),
        entry_of("format"@, false, Native::Format),
        entry_of("set-program"@, false, Native::SetProgram),
    ]
}

/// The binding of a name to a native procedure.
fn entry(name: &str, special: bool, procedure: Native) -> (r: (String, Val))
    ensures
        (r.0@, r.1@) == entry_of(name@, special, procedure),
{
    (name.to_owned(), Val::Builtin(special, procedure))
}

/// The names of the native procedures and what they are bound to.
pub fn get_builtins() -> (r: Vec<(String, Val)>)
    ensures
        pairs(r@) == table(),
{
    let mut builtins: Vec<(String, Val)> = Vec::new();
    builtins.push(entry("quote", true, Native::Quote));
    builtins.push(entry("lambda", true, Native::Lambda));
    builtins.push(entry("define", true, Native::Define));
    builtins.push(entry("define-syntax", true, Native::DefineSyntax));
    builtins.push(entry("eval", false, Native::Eval));
    builtins.push(entry("if", true, Native::If));
    builtins.push(entry("load", false, Native::Load));
    builtins.push(entry("car", false, Native::Car));
    builtins.push(entry("cdr", false, Native::Cdr));
    builtins.push(entry("cons", false, Native::Cons));
    builtins.push(entry("do", false, Native::Do));
    builtins.push(entry("+", false, Native::Plus));
    builtins.push(entry("-", false, Native::Minus));
    builtins.push(entry("*", false, Native::Mult));
    builtins.push(entry("/", false, Native::Div));
    builtins.push(entry("%", false, Native::Modulo));
    builtins.push(entry("=", false, Native::Eq));
    builtins.push(entry("<", false, Native::Less));
    builtins.push(entry(">", false, Native::Greater));
    builtins.push(entry("<=", false, Native::LessEq));
    builtins.push(entry(">=", false, Native::GreaterEq));
    builtins.push(entry("list?", false, Native::TypeList));
    builtins.push(entry("symbol?", false, Native::TypeSym));
    builtins.push(entry("string?", false, Native::TypeString));
    builtins.push(entry("number?", false, Native::TypeNum));
    builtins.push(entry("lambda?", false, Native::TypeLambda));
    builtins.push(entry("not", false, Native::Not));
    builtins.push(entry("event", false, Native::Event));
    builtins.push(entry("apply", false, Native::Apply));
    builtins.push(entry("format", false, Native::Format));
    builtins.push(entry("set-program", false, Native::SetProgram));
    assert(pairs(builtins@) =~= table());
    builtins
}

} // verus!
