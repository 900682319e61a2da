//! The evaluator: a machine that holds its stack of frames as data and
//! takes one step at a time, so that the host can stop it, look at it,
//! answer it and interrupt it between any two steps.

use crate::builtins;
use crate::val::{copy_vals, is_word, lemma_lambda_view, lemma_list_view, tail, terms, Term, Val};
use crate::variables::{Arena, ScopeRef, VarSpace};
use vstd::prelude::*;
use vstd::string::StringExecFns;

verus! {

/// One unit of evaluation in progress: a form, the copy of it in which each
/// element is replaced by its value, the scope, and the cursor.
#[derive(Debug)]
pub struct Stackframe {
    pub vars: ScopeRef,
    pub init: Vec<Val>,
    pub accum: Vec<Val>,
    pub pc: usize,
}

/// The evaluator: the arena of scopes, the stack of frames with the active one
/// last, the parked stacks, the value of the last evaluation that ended, and
/// the queue of events.
pub struct State {
    pub vars: VarSpace,
    pub stack: Vec<Stackframe>,
    pub back_stack: Vec<Vec<Stackframe>>,
    pub result: Val,
    pub events: Vec<Val>,
}

/// What a `Stackframe` stands for.
pub struct Frame {
    pub vars: ScopeRef,
    pub init: Seq<Term>,
    pub accum: Seq<Term>,
    pub pc: int,
}

/// What a `State` stands for.
pub struct Machine {
    pub vars: Arena,
    pub stack: Seq<Frame>,
    pub back_stack: Seq<Seq<Frame>>,
    pub result: Term,
    pub events: Seq<Term>,
}

impl View for Stackframe {
    type V = Frame;

    open spec fn view(&self) -> Frame {
        Frame { vars: self.vars, init: terms(self.init@), accum: terms(self.accum@), pc: self.pc as int }
    }
}

/// The frames of a stack, one for one.
pub open spec fn frames(stack: Seq<Stackframe>) -> Seq<Frame> {
    Seq::new(stack.len(), |i: int| stack[i]@)
}

/// The stacks of a list of parked stacks, one for one.
pub open spec fn stacks(parked: Seq<Vec<Stackframe>>) -> Seq<Seq<Frame>> {
    Seq::new(parked.len(), |i: int| frames(parked[i]@))
}

impl View for State {
    type V = Machine;

    open spec fn view(&self) -> Machine {
        Machine {
            vars: self.vars@,
            stack: frames(self.stack@),
            back_stack: stacks(self.back_stack@),
            result: self.result@,
            events: terms(self.events@),
        }
    }
}

impl Frame {
    /// A frame that is about to evaluate `list` in `vars`.
    pub open spec fn fresh(vars: ScopeRef, list: Seq<Term>) -> Frame {
        Frame { vars, init: list, accum: list, pc: 0 }
    }

    /// Whether the frame works in `scope` or below it, or holds a closure that
    /// captured `scope` or a scope below it.
    pub open spec fn references(self, arena: Arena, scope: ScopeRef) -> bool {
        arena.scope_has_ancestor(self.vars, scope) || arena.vals_have_ancestor(scope, self.accum)
            || arena.vals_have_ancestor(scope, self.init)
    }
}

/// Whether one of the frames references the scope.
pub open spec fn stack_references(stack: Seq<Frame>, arena: Arena, scope: ScopeRef) -> bool {
    exists|i: int| 0 <= i < stack.len() && (#[trigger] stack[i]).references(arena, scope)
}

impl Machine {
    /// Whether the scopes of the machine form a forest.
    pub open spec fn wf(self) -> bool {
        self.vars.wf()
    }

    /// The machine at its start: the native procedures bound in the root,
    /// nothing on the stack, nothing parked, nil as the result, no event.
    pub open spec fn initial() -> Machine {
        Machine {
            vars: Arena::fresh().set_all(Arena::root(), builtins::table(), builtins::table().len()),
            stack: Seq::empty(),
            back_stack: Seq::empty(),
            result: Term::nil(),
            events: Seq::empty(),
        }
    }

    /// The scope of the active frame; the root while no frame is active.
    pub open spec fn get_var_ref(self) -> ScopeRef {
        if self.stack.len() == 0 {
            Arena::root()
        } else {
            self.stack.last().vars
        }
    }

    /// The value of `name` seen from the active scope.
    pub open spec fn get_var(self, name: Seq<char>) -> Option<Term> {
        self.vars.get(self.get_var_ref(), name)
    }

    /// The scope that a definition writes into: two levels above the active
    /// scope.
    pub open spec fn definer(self) -> ScopeRef {
        self.vars.parent(self.vars.parent(self.get_var_ref()))
    }

    /// The machine with `name` bound to `val` in the definer's scope.
    pub open spec fn set_var(self, name: Seq<char>, val: Term) -> Machine {
        Machine { vars: self.vars.set(self.definer(), name, val), ..self }
    }

    /// The machine with a new frame for `list` on the stack, in a new scope
    /// below the active one.
    pub open spec fn add_stackframe(self, list: Seq<Term>) -> Machine {
        Machine {
            vars: self.vars.new_child(self.get_var_ref()),
            stack: self.stack.push(Frame::fresh(self.vars.next(), list)),
            ..self
        }
    }

    /// Whether anything that the machine holds outside the scopes below
    /// `scope` works in `scope` or below it, or holds a closure that captured
    /// such a scope: a frame of the stack or of a parked stack, the result, an
    /// event, or a binding.
    pub open spec fn references(self, scope: ScopeRef) -> bool {
        ||| stack_references(self.stack, self.vars, scope)
        ||| exists|k: int|
            0 <= k < self.back_stack.len() && stack_references(
                #[trigger] self.back_stack[k],
                self.vars,
                scope,
            )
        ||| self.vars.val_has_ancestor(scope, self.result)
        ||| self.vars.vals_have_ancestor(scope, self.events)
        ||| self.vars.binds_reference(scope)
    }

    /// The machine after giving up `scope`: unless the machine still
    /// references it, the scope goes back to the free-list with every scope
    /// below it, and then its parent is given up in the same way. The first
    /// scope on the way up that the machine references stays, and so does all
    /// above it. The root is never given up. In a forest each parent lies
    /// less deep than its child, so the way up ends at the root.
    pub open spec fn release(self, scope: ScopeRef) -> Machine
        decreases self.vars.depth_of(scope),
    {
        if scope == Arena::root() || !self.vars.holds(scope) || self.references(scope) {
            self
        } else {
            let freed = Machine { vars: self.vars.remove(scope), ..self };
            let parent = self.vars.parent(scope);
            if freed.vars.depth_of(parent) < self.vars.depth_of(scope) {
                freed.release(parent)
            } else {
                freed
            }
        }
    }

    /// The stack with `val` written at the cursor of the active frame and the
    /// cursor moved on. A frame whose cursor stands at the end is left alone.
    pub open spec fn deliver(stack: Seq<Frame>, val: Term) -> Seq<Frame> {
        let frame = stack.last();
        if 0 <= frame.pc < frame.accum.len() {
            stack.update(
                stack.len() - 1,
                Frame { accum: frame.accum.update(frame.pc, val), pc: frame.pc + 1, ..frame },
            )
        } else {
            stack
        }
    }

    /// The machine after the active frame has ended with `val`: the frame is
    /// popped, the value goes to the frame below or, if there is none, becomes
    /// the result, and the frame's scope is given up.
    pub open spec fn return_stackframe(self, val: Term) -> Machine {
        if self.stack.len() == 0 {
            Machine { result: val, ..self }
        } else {
            let rest = self.stack.drop_last();
            let popped = if rest.len() == 0 {
                Machine { stack: rest, result: val, ..self }
            } else {
                Machine { stack: Self::deliver(rest, val), ..self }
            };
            popped.release(self.stack.last().vars)
        }
    }

    /// The machine with the active frame starting over on `list`, in the same
    /// scope.
    pub open spec fn replace_stackframe(self, list: Seq<Term>) -> Machine {
        if self.stack.len() == 0 {
            self
        } else {
            Machine {
                stack: self.stack.update(
                    self.stack.len() - 1,
                    Frame::fresh(self.stack.last().vars, list),
                ),
                ..self
            }
        }
    }
}

impl Machine {
    /// The machine with the cursor of the active frame at `pc`.
    pub open spec fn set_pc(self, pc: int) -> Machine {
        if self.stack.len() == 0 {
            self
        } else {
            Machine {
                stack: self.stack.update(
                    self.stack.len() - 1,
                    Frame { pc, ..self.stack.last() },
                ),
                ..self
            }
        }
    }

    /// The machine with a further event at the end of the queue.
    pub open spec fn send_event(self, event: Term) -> Machine {
        Machine { events: self.events.push(event), ..self }
    }

    /// The event that asks the host to print a text.
    pub open spec fn print_event(text: Seq<char>) -> Term {
        crate::val::parsed("(print \""@ + text + "\")"@)
    }

    /// The machine with the event queued that asks the host to print a text.
    pub open spec fn print(self, text: Seq<char>) -> Machine {
        self.send_event(Self::print_event(text))
    }

    /// The elements of a program: those of a list, or the value alone.
    pub open spec fn program(prog: Term) -> Seq<Term> {
        match prog {
            Term::List(list) => list,
            _ => seq![prog],
        }
    }

    /// The machine with `prog` as the program that takes over when the stack
    /// runs empty: a stack of one new frame, in a new scope below the root,
    /// in the first place of the parked stacks.
    pub open spec fn set_main_program(self, prog: Term) -> Machine {
        let stack = seq![Frame::fresh(self.vars.next(), Self::program(prog))];
        Machine {
            vars: self.vars.new_child(Arena::root()),
            back_stack: if self.back_stack.len() == 0 {
                seq![stack]
            } else {
                self.back_stack.update(0, stack)
            },
            ..self
        }
    }
}

/// The largest number of steps that one evaluation or one run takes.
pub const STEP_BUDGET: usize = 10000;

impl Machine {
    /// The closure that a macro gets as its first argument: it evaluates its
    /// own argument in the scope of the call.
    pub open spec fn expander(scope: ScopeRef) -> Term {
        Term::Lambda(
            false,
            scope,
            seq![
                Term::Sym("lambda"@),
                Term::List(seq![Term::Sym("$x"@)]),
                Term::List(seq![Term::Sym("eval"@), Term::Sym("$x"@)]),
            ],
        )
    }

    /// The arguments that a closure gets from a call with the given tail: the
    /// tail itself, or for a macro the expander and the tail as one list.
    pub open spec fn params(callable: Term, scope: ScopeRef, tail: Seq<Term>) -> Seq<Term> {
        match callable {
            Term::Lambda(true, _, _) => seq![Self::expander(scope), Term::List(tail)],
            _ => tail,
        }
    }

    /// The arena with the first `n` names bound in `scope`, each to the
    /// argument at its position. A name without an argument stays unbound,
    /// and so does a place that holds no symbol.
    pub open spec fn bind_names(
        arena: Arena,
        scope: ScopeRef,
        names: Seq<Term>,
        params: Seq<Term>,
        n: nat,
    ) -> Arena
        decreases n,
    {
        if n == 0 {
            arena
        } else {
            let before = Self::bind_names(arena, scope, names, params, (n - 1) as nat);
            match names[n - 1] {
                Term::Sym(name) => if n - 1 < params.len() {
                    before.set(scope, name, params[n - 1])
                } else {
                    before
                },
                _ => before,
            }
        }
    }

    /// The arena with the parameters of a closure bound in `scope`: a list of
    /// names by position, a single name to the list of all arguments.
    pub open spec fn bind(arena: Arena, scope: ScopeRef, pattern: Term, params: Seq<Term>) -> Arena {
        match pattern {
            Term::List(names) => Self::bind_names(arena, scope, names, params, names.len()),
            Term::Sym(name) => arena.set(scope, name, Term::List(params)),
            _ => arena,
        }
    }

    /// The machine with the active frame starting over on `list` in `scope`.
    pub open spec fn enter(self, scope: ScopeRef, list: Seq<Term>) -> Machine {
        if self.stack.len() == 0 {
            self
        } else {
            Machine {
                stack: self.stack.update(self.stack.len() - 1, Frame::fresh(scope, list)),
                ..self
            }
        }
    }

    /// Applies the head of the active frame where it is no native procedure.
    /// A closure, or a list of the shape `(lambda params expr...)`, gets a
    /// new scope below the one it captured (the root for a list) with its
    /// parameters bound. One expression that is a form takes the place of the
    /// frame, several do so behind `do`, and the scope that the frame had is
    /// given up; one expression that is no form is the value. Any other head
    /// makes the whole form the value.
    pub open spec fn call_closure(self) -> Machine {
        let frame = self.stack.last();
        let callable = frame.accum[0];
        let tail = frame.accum.subrange(1, frame.accum.len() as int);
        let list = match callable.form() {
            Some(l) => l,
            None => Seq::empty(),
        };
        if list.len() < 3 || list[0] != Term::Sym("lambda"@) {
            self.return_stackframe(Term::List(frame.accum))
        } else {
            let captured = match callable {
                Term::Lambda(_, scope, _) => scope,
                _ => Arena::root(),
            };
            let scope = self.vars.next();
            let bound = Machine {
                vars: Self::bind(
                    self.vars.new_child(captured),
                    scope,
                    list[1],
                    Self::params(callable, frame.vars, tail),
                ),
                ..self
            };
            bound.run_body(scope, list)
        }
    }

    /// The machine that goes on with the body of a closure, whose form is
    /// `list`, in the new scope `scope`. One expression that is a form takes
    /// the place of the call in the active frame, several do so behind `do`,
    /// and the scope that the frame had is given up; one expression that is
    /// no form is the value of the frame, a symbol being looked up in the new
    /// scope, and the new scope is given up.
    pub open spec fn run_body(self, scope: ScopeRef, list: Seq<Term>) -> Machine {
        let frame = self.stack.last();
        if list.len() > 3 {
            self.enter(
                scope,
                seq![Term::Sym("do"@)] + list.subrange(2, list.len() as int),
            ).release(frame.vars)
        } else {
            match list[2] {
                Term::List(body) => self.enter(scope, body).release(frame.vars),
                Term::Sym(name) => self.return_stackframe(
                    match self.vars.get(scope, name) {
                        Some(v) => v,
                        None => list[2],
                    },
                ).release(scope),
                _ => self.return_stackframe(list[2]).release(scope),
            }
        }
    }

    /// Applies the active frame: an empty form is nil, a native procedure at
    /// the head is run on the rest of the form, anything else is applied as a
    /// closure.
    pub open spec fn call(self) -> Machine {
        if self.stack.len() == 0 {
            self
        } else {
            let frame = self.stack.last();
            if frame.accum.len() == 0 {
                self.return_stackframe(Term::nil())
            } else {
                match frame.accum[0] {
                    Term::Builtin(_, procedure) => builtins::native(
                        self,
                        procedure,
                        frame.accum.subrange(1, frame.accum.len() as int),
                    ),
                    _ => self.call_closure(),
                }
            }
        }
    }

    /// Whether the head of the frame takes the rest of the form unevaluated: a
    /// special native procedure or a macro.
    pub open spec fn takes_raw(frame: Frame) -> bool {
        frame.accum.len() > 0 && match frame.accum[0] {
            Term::Builtin(true, _) => true,
            Term::Lambda(true, _, _) => true,
            _ => false,
        }
    }

    /// One unit of progress on the active frame. While a message waits for
    /// the host, nothing is done: the frame stays as it is until the host
    /// answers. A frame whose cursor stands at the end is applied, and so is
    /// one whose head takes the rest unevaluated, once the head is known. Else the element at the cursor is
    /// evaluated: a symbol gives way to what it is bound to, or stays as it
    /// is; a list gets a frame of its own; anything else stands for itself.
    pub open spec fn step_inner(self) -> Machine {
        let frame = self.stack.last();
        if self.message_peek() is Some {
            self
        } else if frame.pc >= frame.accum.len() || frame.pc < 0 {
            self.call()
        } else if frame.pc >= 1 && Self::takes_raw(frame) {
            self.call()
        } else {
            match frame.accum[frame.pc] {
                Term::Sym(name) => match self.vars.get(frame.vars, name) {
                    Some(v) => Machine { stack: Self::deliver(self.stack, v), ..self },
                    None => self.set_pc(frame.pc + 1),
                },
                Term::List(list) => self.add_stackframe(list),
                _ => self.set_pc(frame.pc + 1),
            }
        }
    }

    /// The machine after the work of a step on the active frame, before a
    /// parked stack is taken up.
    pub open spec fn worked(self) -> Machine {
        if self.stack.len() > 0 {
            self.step_inner()
        } else {
            self
        }
    }

    /// The machine after one step. Where the stack has run empty, the stack
    /// that was parked last is taken up again, as it was parked.
    pub open spec fn step(self) -> Machine {
        let m = self.worked();
        if m.stack.len() == 0 && m.back_stack.len() > 0 {
            Machine { stack: m.back_stack.last(), back_stack: m.back_stack.drop_last(), ..m }
        } else {
            m
        }
    }

    /// What a step returns: the result, once the stack has run empty and no
    /// stack is parked.
    pub open spec fn step_result(self) -> Option<Term> {
        let m = self.worked();
        if m.stack.len() == 0 && m.back_stack.len() == 0 {
            Some(m.result)
        } else {
            None
        }
    }

    /// The machine that starts on a program: the stack is dropped; a list
    /// gets a frame, a symbol is looked up in the root and is the result, as
    /// is anything else.
    pub open spec fn set_program(self, val: Term) -> Machine {
        let cleared = Machine { stack: Seq::empty(), ..self };
        match val {
            Term::List(list) => cleared.add_stackframe(list),
            _ => Machine { result: builtins::resolved(cleared, val), ..cleared },
        }
    }

    /// The machine that parks its stack and starts on a program.
    pub open spec fn interrupt(self, val: Term) -> Machine {
        Machine { back_stack: self.back_stack.push(self.stack), ..self }.set_program(val)
    }

    /// The message that waits for the host: the name of the marker at the
    /// head of the active frame and the arguments behind it, once the whole
    /// form is evaluated.
    pub open spec fn message_peek(self) -> Option<Seq<Term>> {
        if self.stack.len() == 0 {
            None
        } else {
            let frame = self.stack.last();
            if frame.accum.len() == 0 || frame.pc < frame.accum.len() {
                None
            } else {
                match frame.accum[0] {
                    Term::Message(name) => Some(
                        seq![Term::Sym(name)] + frame.accum.subrange(1, frame.accum.len() as int),
                    ),
                    _ => None,
                }
            }
        }
    }

    /// The name of the file that a pending `load` asks the host for: the
    /// message that waits is named `load` and holds a string, alone.
    pub open spec fn wanted_file(self) -> Option<Seq<char>> {
        match self.message_peek() {
            Some(message) => if message.len() == 2 && message[0] == Term::Sym("load"@) {
                match message[1] {
                    Term::Text(name) => Some(name),
                    _ => None,
                }
            } else {
                None
            },
            None => None,
        }
    }

    /// The machine after the host has answered a pending `load`: with the
    /// text of the file, the expressions of the text take the place of the
    /// call in the active frame; without it, the host is asked to print that
    /// the file could not be loaded and the call ends with nil. Where no
    /// `load` waits, the machine stays as it is.
    pub open spec fn answer_load(self, text: Option<Seq<char>>) -> Machine {
        match self.wanted_file() {
            Some(name) => match text {
                Some(source) => self.replace_stackframe(crate::val::parsed_all(source)),
                None => self.print("Could not load file: "@ + name).return_stackframe(Term::nil()),
            },
            None => self,
        }
    }

    /// Whether the marker of a message stands at the head of the active
    /// frame.
    pub open spec fn awaits_message(self) -> bool {
        self.stack.len() > 0 && self.stack.last().accum.len() > 0 && self.stack.last().accum[0] is Message
    }

    /// Whether there is work to do and nothing that the host has to see to
    /// first: no event in the queue and no message pending.
    pub open spec fn running(self) -> bool {
        (self.stack.len() > 0 || self.back_stack.len() > 0) && self.events.len() == 0
            && self.message_peek() is None
    }

    /// Whether nothing is left: no frame, no parked stack, no event.
    pub open spec fn finished(self) -> bool {
        self.stack.len() == 0 && self.back_stack.len() == 0 && self.events.len() == 0
    }

    /// The machine after steps are taken while it is running, at most `fuel`
    /// of them, up to the first that returns a result.
    pub open spec fn run(self, fuel: nat) -> Machine
        decreases fuel,
    {
        if fuel == 0 || !self.running() {
            self
        } else if self.step_result() is Some {
            self.step()
        } else {
            self.step().run((fuel - 1) as nat)
        }
    }

    /// What such a run returns: the result of the step that ended it, if one
    /// did.
    pub open spec fn run_result(self, fuel: nat) -> Option<Term>
        decreases fuel,
    {
        if fuel == 0 || !self.running() {
            None
        } else if self.step_result() is Some {
            self.step_result()
        } else {
            self.step().run_result((fuel - 1) as nat)
        }
    }

    /// The machine after steps are taken, at most `fuel` of them, up to the
    /// first that returns a result.
    pub open spec fn steps(self, fuel: nat) -> Machine
        decreases fuel,
    {
        if fuel == 0 {
            self
        } else if self.step_result() is Some {
            self.step()
        } else {
            self.step().steps((fuel - 1) as nat)
        }
    }

    /// What such steps return: the result of the last of them, if it gave one.
    pub open spec fn steps_result(self, fuel: nat) -> Option<Term>
        decreases fuel,
    {
        if fuel == 0 {
            None
        } else if self.step_result() is Some {
            self.step_result()
        } else {
            self.step().steps_result((fuel - 1) as nat)
        }
    }

    /// The machine with the name bound to the marker of a message.
    pub open spec fn message_add(self, name: Seq<char>) -> Machine {
        self.set_var(name, Term::Message(name))
    }
}

/// The line that the host prints for an event, if it prints one: for
/// `(print x)` the name of a symbol, or the printed form of anything else;
/// for an event with another symbol at its head, that it is unknown.
pub open spec fn event_line(event: Term) -> Option<Seq<char>> {
    match event {
        Term::List(l) => if l.len() > 0 && l[0] is Sym {
            if l[0]->Sym_0 == "print"@ {
                if l.len() > 1 {
                    Some(
                        match l[1] {
                            Term::Sym(s) => s,
                            _ => l[1].text(),
                        },
                    )
                } else {
                    None
                }
            } else {
                Some("Unknown event: "@ + event.text())
            }
        } else {
            None
        },
        _ => None,
    }
}

/// The lines that the host prints for the first `n` events.
pub open spec fn event_lines(events: Seq<Term>, n: nat) -> Seq<Seq<char>>
    decreases n,
{
    if n == 0 {
        Seq::empty()
    } else {
        let before = event_lines(events, (n - 1) as nat);
        match event_line(events[n - 1]) {
            Some(line) => before.push(line),
            None => before,
        }
    }
}

/// The texts of a list of strings, one for one.
pub open spec fn lines(v: Seq<String>) -> Seq<Seq<char>> {
    Seq::new(v.len(), |i: int| v[i]@)
}

/// Giving a scope up leaves the stack, the parked stacks, the result and the
/// events as they are.
pub broadcast proof fn law_release_keeps_frames(m: Machine, scope: ScopeRef)
    ensures
        (#[trigger] m.release(scope)).stack == m.stack,
        m.release(scope).back_stack == m.back_stack,
        m.release(scope).result == m.result,
        m.release(scope).events == m.events,
    decreases m.vars.depth_of(scope),
{
    if scope != Arena::root() && m.vars.holds(scope) && !m.references(scope) {
        let freed = Machine { vars: m.vars.remove(scope), ..m };
        let parent = m.vars.parent(scope);
        if freed.vars.depth_of(parent) < m.vars.depth_of(scope) {
            law_release_keeps_frames(freed, parent);
        }
    }
}

/// Removing scopes leaves the number of slots as it is.
pub proof fn lemma_remove_all_keeps_slots(a: Arena, list: Seq<ScopeRef>, n: nat)
    ensures
        a.remove_all(list, n).scopes.len() == a.scopes.len(),
    decreases n,
{
    if n > 0 {
        lemma_remove_all_keeps_slots(a, list, (n - 1) as nat);
    }
}

/// Giving a scope up leaves the number of slots of the arena as it is.
pub broadcast proof fn law_release_keeps_slots(m: Machine, scope: ScopeRef)
    ensures
        (#[trigger] m.release(scope)).vars.scopes.len() == m.vars.scopes.len(),
    decreases m.vars.depth_of(scope),
{
    if scope != Arena::root() && m.vars.holds(scope) && !m.references(scope) {
        let below = m.vars.descendants(scope, m.vars.scopes.len());
        lemma_remove_all_keeps_slots(m.vars.remove_inner(scope), below, below.len());
        let freed = Machine { vars: m.vars.remove(scope), ..m };
        let parent = m.vars.parent(scope);
        if freed.vars.depth_of(parent) < m.vars.depth_of(scope) {
            law_release_keeps_slots(freed, parent);
        }
    }
}

impl Stackframe {
    /// A frame that is about to evaluate `list` in `vars`.
    pub fn fresh(vars: ScopeRef, list: Vec<Val>) -> (r: Stackframe)
        ensures
            r@ == Frame::fresh(vars, terms(list@)),
    {
        let init = crate::val::copy_vals(&list);
        Stackframe { vars, init, accum: list, pc: 0 }
    }

    /// Whether the frame works in `scope` or below it, or holds a closure that
    /// captured `scope` or a scope below it.
    pub fn references(&self, arena: &VarSpace, scope: ScopeRef) -> (r: bool)
        requires
            arena@.wf(),
        ensures
            r == self@.references(arena@, scope),
    {
        arena.scope_has_ancestor(self.vars, scope) || arena.vals_have_ancestor(scope, &self.accum)
            || arena.vals_have_ancestor(scope, &self.init)
    }
}

impl Clone for Stackframe {
    /// A copy of the frame.
    fn clone(&self) -> (r: Stackframe)
        ensures
            r@ == self@,
    {
        Stackframe {
            vars: self.vars,
            init: crate::val::copy_vals(&self.init),
            accum: crate::val::copy_vals(&self.accum),
            pc: self.pc,
        }
    }
}

/// A copy of a stack.
pub fn copy_stack(stack: &Vec<Stackframe>) -> (r: Vec<Stackframe>)
    ensures
        frames(r@) == frames(stack@),
{
    let mut out: Vec<Stackframe> = Vec::new();
    let mut i: usize = 0;
    while i < stack.len()
        invariant
            i <= stack.len(),
            out.len() == i,
            forall|j: int| 0 <= j < i ==> out@[j]@ == stack@[j]@,
        decreases stack.len() - i,
    {
        out.push(stack[i].clone());
        i += 1;
    }
    assert(frames(out@) =~= frames(stack@));
    out
}

impl Clone for State {
    /// A copy of the whole state.
    fn clone(&self) -> (r: State)
        ensures
            r@ == self@,
    {
        let mut back_stack: Vec<Vec<Stackframe>> = Vec::new();
        let mut k: usize = 0;
        while k < self.back_stack.len()
            invariant
                k <= self.back_stack.len(),
                back_stack.len() == k,
                forall|j: int| 0 <= j < k ==> frames(back_stack@[j]@) == frames(self.back_stack@[j]@),
            decreases self.back_stack.len() - k,
        {
            back_stack.push(copy_stack(&self.back_stack[k]));
            k += 1;
        }
        let r = State {
            vars: self.vars.clone(),
            stack: copy_stack(&self.stack),
            back_stack,
            result: self.result.clone(),
            events: copy_vals(&self.events),
        };
        assert(stacks(r.back_stack@) =~= stacks(self.back_stack@));
        r
    }
}

/// Whether one of the frames references the scope.
pub fn any_references(stack: &Vec<Stackframe>, arena: &VarSpace, scope: ScopeRef) -> (r: bool)
    requires
        arena@.wf(),
    ensures
        r == stack_references(frames(stack@), arena@, scope),
{
    let mut i: usize = 0;
    while i < stack.len()
        invariant
            i <= stack.len(),
            arena@.wf(),
            forall|j: int| 0 <= j < i ==> !(#[trigger] frames(stack@)[j]).references(arena@, scope),
        decreases stack.len() - i,
    {
        if stack[i].references(arena, scope) {
            assert(frames(stack@)[i as int].references(arena@, scope));
            return true;
        }
        i += 1;
    }
    false
}

impl State {
    /// The scope of the active frame; the root while no frame is active.
    pub fn get_var_ref(&self) -> (r: ScopeRef)
        ensures
            r == self@.get_var_ref(),
    {
        if self.stack.len() == 0 {
            self.vars.root()
        } else {
            self.stack[self.stack.len() - 1].vars
        }
    }

    /// Looks `name` up from the active scope.
    pub fn get_var(&self, name: &String) -> (r: Option<&Val>)
        requires
            self@.wf(),
        ensures
            match r {
                Some(v) => self@.get_var(name@) == Some(v@),
                None => self@.get_var(name@) is None,
            },
    {
        let var_ref = self.get_var_ref();
        self.vars.get(var_ref, name.as_str())
    }

    /// Binds `name` to `val` two levels above the active scope.
    pub fn set_var(&mut self, name: &String, val: Val)
        requires
            old(self)@.wf(),
        ensures
            final(self)@ == old(self)@.set_var(name@, val@),
            final(self)@.wf(),
    {
        let var_ref = self.get_var_ref();
        let var_ref = self.vars.parent(var_ref);
        let var_ref = self.vars.parent(var_ref);
        self.vars.set(var_ref, name.as_str(), val);
    }

    /// Pushes a frame for `list`, in a new scope below the active one.
    pub fn add_stackframe(&mut self, list: Vec<Val>)
        requires
            old(self)@.wf(),
        ensures
            final(self)@ == old(self)@.add_stackframe(terms(list@)),
            final(self)@.wf(),
    {
        let var_ref = self.get_var_ref();
        let vars = self.vars.new_child(var_ref);
        self.stack.push(Stackframe::fresh(vars, list));
        assert(frames(self.stack@) =~= old(self)@.add_stackframe(terms(list@)).stack);
    }

    /// Whether the state still references the scope.
    pub fn references(&self, scope: ScopeRef) -> (r: bool)
        requires
            self@.wf(),
        ensures
            r == self@.references(scope),
    {
        if any_references(&self.stack, &self.vars, scope) {
            return true;
        }
        let mut k: usize = 0;
        while k < self.back_stack.len()
            invariant
                k <= self.back_stack.len(),
                self@.wf(),
                forall|j: int|
                    0 <= j < k ==> !stack_references(
                        #[trigger] stacks(self.back_stack@)[j],
                        self.vars@,
                        scope,
                    ),
            decreases self.back_stack.len() - k,
        {
            if any_references(&self.back_stack[k], &self.vars, scope) {
                assert(stack_references(self@.back_stack[k as int], self@.vars, scope));
                return true;
            }
            k += 1;
        }
        self.vars.val_has_ancestor(scope, &self.result) || self.vars.vals_have_ancestor(
            scope,
            &self.events,
        ) || self.vars.binds_reference(scope)
    }

    /// Gives up a scope: it goes back to the free-list with every scope below
    /// it, unless the state still references it, and after it each scope
    /// around it of which the same holds.
    pub fn release(&mut self, scope: ScopeRef)
        requires
            old(self)@.wf(),
        ensures
            final(self)@ == old(self)@.release(scope),
            final(self)@.wf(),
    {
        let mut next = scope;
        loop
            invariant
                self@.wf(),
                old(self)@.release(scope) == self@.release(next),
            decreases self@.vars.depth_of(next),
        {
            if next.0 == 0 || next.0 >= self.vars.len() || self.references(next) {
                return ;
            }
            let parent = self.vars.parent(next);
            let ghost before = self@;
            self.vars.remove(next);
            proof {
                crate::variables::lemma_remove(before.vars, next);
                assert(before.vars.depth[next.0 as int] == before.vars.depth[parent.0 as int] + 1);
                assert(!before.vars.scopes[parent.0 as int].free);
                crate::variables::lemma_parent_is_not_below(before.vars, next);
                assert(self@.vars.depth[parent.0 as int] == before.vars.depth[parent.0 as int]);
            }
            next = parent;
        }
    }

    /// Ends the active frame with `val`.
    pub fn return_stackframe(&mut self, val: Val)
        requires
            old(self)@.wf(),
        ensures
            final(self)@ == old(self)@.return_stackframe(val@),
            final(self)@.wf(),
    {
        match self.stack.pop() {
            None => {
                self.result = val;
            },
            Some(frame) => {
                assert(frames(self.stack@) =~= old(self)@.stack.drop_last());
                let n = self.stack.len();
                if n == 0 {
                    self.result = val;
                } else {
                    let pc = self.stack[n - 1].pc;
                    if pc < self.stack[n - 1].accum.len() {
                        self.stack[n - 1].accum[pc] = val;
                        self.stack[n - 1].pc = pc + 1;
                        assert(self.stack@[n - 1]@.accum =~= old(self)@.stack[n - 1].accum.update(
                            pc as int,
                            val@,
                        ));
                        assert(self.stack@[n - 1]@.init =~= old(self)@.stack[n - 1].init);
                    }
                    assert(frames(self.stack@) =~= Machine::deliver(
                        old(self)@.stack.drop_last(),
                        val@,
                    ));
                }
                self.release(frame.vars);
            },
        }
    }

    /// Starts the active frame over on `list`, in the same scope.
    pub fn replace_stackframe(&mut self, val: Vec<Val>)
        ensures
            final(self)@ == old(self)@.replace_stackframe(terms(val@)),
    {
        let n = self.stack.len();
        if n > 0 {
            let vars = self.stack[n - 1].vars;
            self.stack[n - 1] = Stackframe::fresh(vars, val);
            assert(frames(self.stack@) =~= old(self)@.replace_stackframe(terms(val@)).stack);
        }
    }

    /// The active frame.
    pub fn get_stackframe(&mut self) -> (r: &mut Stackframe)
        requires
            old(self).stack.len() > 0,
        ensures
            *r == old(self).stack@.last(),
            final(self).stack@ == old(self).stack@.update(old(self).stack.len() - 1, *final(r)),
            final(self).vars == old(self).vars,
            final(self).back_stack == old(self).back_stack,
            final(self).result == old(self).result,
            final(self).events == old(self).events,
    {
        let n = self.stack.len();
        &mut self.stack[n - 1]
    }
}


impl State {
    /// Moves the cursor of the active frame.
    pub fn set_pc(&mut self, pc: usize)
        ensures
            final(self)@ == old(self)@.set_pc(pc as int),
    {
        let n = self.stack.len();
        if n > 0 {
            self.stack[n - 1].pc = pc;
            assert(frames(self.stack@) =~= old(self)@.set_pc(pc as int).stack);
        }
    }

    /// Puts an event at the end of the queue.
    pub fn send_event(&mut self, event: Val)
        ensures
            final(self)@ == old(self)@.send_event(event@),
    {
        self.events.push(event);
        assert(terms(self.events@) =~= old(self)@.events.push(event@));
    }

    /// Queues the event that asks the host to print a text.
    pub fn print(&mut self, err: String)
        ensures
            final(self)@ == old(self)@.print(err@),
    {
        let mut text = "(print \"".to_owned();
        text.append(err.as_str());
        text.append("\")");
        self.send_event(crate::val::p(text.as_str()));
    }

    /// Queues the event that asks the host to print an error.
    pub fn print_error(&mut self, err: String)
        ensures
            final(self)@ == old(self)@.print(err@),
    {
        self.print(err);
    }

    /// Sets the program that takes over when the stack runs empty.
    pub fn set_main_program(&mut self, prog: Val)
        requires
            old(self)@.wf(),
        ensures
            final(self)@ == old(self)@.set_main_program(prog@),
            final(self)@.wf(),
    {
        let ghost given = prog@;
        let prog = match prog {
            Val::List(list) => {
                proof {
                    crate::val::lemma_list_view(list);
                }
                list
            },
            _ => {
                let ghost t = prog@;
                let v = vec![prog];
                assert(terms(v@) =~= seq![t]);
                v
            },
        };
        let root = self.vars.root();
        let vars = self.vars.new_child(root);
        let mut stack: Vec<Stackframe> = Vec::new();
        stack.push(Stackframe::fresh(vars, prog));
        assert(frames(stack@) =~= seq![Frame::fresh(vars, terms(prog@))]);
        if self.back_stack.len() == 0 {
            self.back_stack.push(stack);
        } else {
            self.back_stack[0] = stack;
        }
        assert(stacks(self.back_stack@) =~= old(self)@.set_main_program(given).back_stack);
    }
}


/// The closure that a macro gets as its first argument.
fn expander(scope: ScopeRef) -> (r: Val)
    ensures
        r@ == Machine::expander(scope),
{
    let names = vec![Val::sym("$x")];
    let body = vec![Val::sym("eval"), Val::sym("$x")];
    proof {
        lemma_list_view(names);
        lemma_list_view(body);
        assert(terms(names@) =~= seq![Term::Sym("$x"@)]);
        assert(terms(body@) =~= seq![Term::Sym("eval"@), Term::Sym("$x"@)]);
    }
    let form = vec![Val::sym("lambda"), Val::List(names), Val::List(body)];
    proof {
        lemma_lambda_view(false, scope, form);
        assert(terms(form@) =~= seq![
            Term::Sym("lambda"@),
            Term::List(seq![Term::Sym("$x"@)]),
            Term::List(seq![Term::Sym("eval"@), Term::Sym("$x"@)]),
        ]);
    }
    Val::Lambda(false, scope, form)
}

impl State {
    /// Binds the parameters of a closure in `scope`.
    fn bind(&mut self, scope: ScopeRef, pattern: &Val, params: Vec<Val>)
        requires
            old(self)@.wf(),
        ensures
            final(self)@ == (Machine {
                vars: Machine::bind(old(self)@.vars, scope, pattern@, terms(params@)),
                ..old(self)@
            }),
            final(self)@.wf(),
    {
        match pattern {
            Val::List(names) => {
                proof {
                    lemma_list_view(*names);
                }
                let mut i: usize = 0;
                while i < names.len()
                    invariant
                        i <= names.len(),
                        self@.wf(),
                        self@ == (Machine {
                            vars: Machine::bind_names(
                                old(self)@.vars,
                                scope,
                                terms(names@),
                                terms(params@),
                                i as nat,
                            ),
                            ..old(self)@
                        }),
                    decreases names.len() - i,
                {
                    match &names[i] {
                        Val::Sym(sym) => {
                            if i < params.len() {
                                self.vars.set(scope, sym.as_str(), params[i].clone());
                            }
                        },
                        _ => {},
                    }
                    i += 1;
                }
            },
            Val::Sym(sym) => {
                self.vars.set(scope, sym.as_str(), Val::list(params));
            },
            _ => {},
        }
    }

    /// Starts the active frame over on `list` in `scope`.
    fn enter(&mut self, scope: ScopeRef, list: Vec<Val>)
        ensures
            final(self)@ == old(self)@.enter(scope, terms(list@)),
    {
        let n = self.stack.len();
        if n > 0 {
            self.stack[n - 1] = Stackframe::fresh(scope, list);
            assert(frames(self.stack@) =~= old(self)@.enter(scope, terms(list@)).stack);
        }
    }

    /// Applies the head of the active frame where it is no native procedure.
    #[verifier::rlimit(30)]
    fn call_closure(&mut self)
        requires
            old(self)@.wf(),
            old(self)@.stack.len() > 0,
            old(self)@.stack.last().accum.len() > 0,
        ensures
            final(self)@ == old(self)@.call_closure(),
            final(self)@.wf(),
    {
        let n = self.stack.len();
        let var_ref = self.stack[n - 1].vars;
        let callable = self.stack[n - 1].accum[0].clone();
        let args = tail(&self.stack[n - 1].accum, 1);
        let empty: Vec<Val> = Vec::new();
        let list: &Vec<Val> = match &callable {
            Val::List(list) => {
                proof {
                    lemma_list_view(*list);
                }
                list
            },
            Val::Lambda(is_macro, scope, list) => {
                proof {
                    lemma_lambda_view(*is_macro, *scope, *list);
                }
                list
            },
            _ => &empty,
        };
        assert(terms(list@) == match callable@.form() {
            Some(l) => l,
            None => Seq::empty(),
        }) by {
            assert(terms(empty@) =~= Seq::<Term>::empty());
        }
        let shaped = list.len() >= 3 && match &list[0] {
            Val::Sym(sym) => is_word(sym, "lambda"),
            _ => false,
        };
        if !shaped {
            let whole = copy_vals(&self.stack[n - 1].accum);
            self.return_stackframe(Val::list(whole));
            return ;
        }
        let (captured, params) = match &callable {
            Val::Lambda(true, scope, _) => {
                let pair = vec![expander(var_ref), Val::list(args)];
                assert(terms(pair@) =~= Machine::params(
                    callable@,
                    var_ref,
                    old(self)@.stack.last().accum.subrange(
                        1,
                        old(self)@.stack.last().accum.len() as int,
                    ),
                ));
                (*scope, pair)
            },
            Val::Lambda(false, scope, _) => (*scope, args),
            _ => (self.vars.root(), args),
        };
        let scope = self.vars.new_child(captured);
        self.bind(scope, &list[1], params);
        self.run_body(scope, list);
    }

    /// Goes on with the body of a closure in its new scope.
    fn run_body(&mut self, scope: ScopeRef, list: &Vec<Val>)
        requires
            old(self)@.wf(),
            old(self)@.stack.len() > 0,
            list.len() >= 3,
        ensures
            final(self)@ == old(self)@.run_body(scope, terms(list@)),
            final(self)@.wf(),
    {
        let n = self.stack.len();
        let var_ref = self.stack[n - 1].vars;
        if list.len() > 3 {
            let rest = tail(list, 2);
            self.enter(scope, builtins::headed("do", &rest));
            self.release(var_ref);
        } else {
            match &list[2] {
                Val::List(body) => {
                    proof {
                        lemma_list_view(*body);
                    }
                    self.enter(scope, copy_vals(body));
                    self.release(var_ref);
                },
                Val::Sym(sym) => {
                    let val = match self.vars.get(scope, sym.as_str()) {
                        Some(val) => val.clone(),
                        None => list[2].clone(),
                    };
                    self.return_stackframe(val);
                    self.release(scope);
                },
                _ => {
                    self.return_stackframe(list[2].clone());
                    self.release(scope);
                },
            }
        }
    }

    /// Applies the active frame.
    pub fn call(&mut self)
        requires
            old(self)@.wf(),
        ensures
            final(self)@ == old(self)@.call(),
            final(self)@.wf(),
    {
        let n = self.stack.len();
        if n == 0 {
            return ;
        }
        if self.stack[n - 1].accum.len() == 0 {
            self.return_stackframe(Val::nil());
            return ;
        }
        match &self.stack[n - 1].accum[0] {
            Val::Builtin(_, procedure) => {
                let procedure = *procedure;
                let args = tail(&self.stack[n - 1].accum, 1);
                builtins::run(procedure, args, self);
            },
            _ => {
                self.call_closure();
            },
        }
    }

    /// Whether the head of the active frame takes the rest of the form
    /// unevaluated.
    fn takes_raw(&self) -> (r: bool)
        requires
            self.stack.len() > 0,
        ensures
            r == Machine::takes_raw(self@.stack.last()),
    {
        let frame = &self.stack[self.stack.len() - 1];
        if frame.accum.len() == 0 {
            false
        } else {
            match &frame.accum[0] {
                Val::Builtin(true, _) => true,
                Val::Lambda(true, scope, list) => {
                    proof {
                        lemma_lambda_view(true, *scope, *list);
                    }
                    true
                },
                Val::Lambda(false, scope, list) => {
                    proof {
                        lemma_lambda_view(false, *scope, *list);
                    }
                    false
                },
                _ => false,
            }
        }
    }

    /// Whether a message waits for the host.
    pub fn message_pending(&self) -> (r: bool)
        ensures
            r == (self@.message_peek() is Some),
    {
        let n = self.stack.len();
        if n == 0 {
            return false;
        }
        let frame = &self.stack[n - 1];
        if frame.accum.len() == 0 || frame.pc < frame.accum.len() {
            return false;
        }
        matches!(&frame.accum[0], Val::Message(_))
    }

    /// One unit of progress on the active frame.
    #[verifier::rlimit(30)]
    fn step_inner(&mut self)
        requires
            old(self)@.wf(),
            old(self)@.stack.len() > 0,
        ensures
            final(self)@ == old(self)@.step_inner(),
            final(self)@.wf(),
    {
        let n = self.stack.len();
        if self.message_pending() {
            return ;
        }
        let pc = self.stack[n - 1].pc;
        if pc >= self.stack[n - 1].accum.len() {
            self.call();
            return ;
        }
        if pc >= 1 && self.takes_raw() {
            self.call();
            return ;
        }
        let scope = self.stack[n - 1].vars;
        match &self.stack[n - 1].accum[pc] {
            Val::Sym(sym) => {
                let found = match self.vars.get(scope, sym.as_str()) {
                    Some(val) => Some(val.clone()),
                    None => None,
                };
                match found {
                    Some(val) => {
                        self.stack[n - 1].accum[pc] = val;
                        self.stack[n - 1].pc = pc + 1;
                        assert(self.stack@[n - 1]@.accum =~= old(self)@.stack[n - 1].accum.update(
                            pc as int,
                            val@,
                        ));
                        assert(self.stack@[n - 1]@.init =~= old(self)@.stack[n - 1].init);
                        assert(frames(self.stack@) =~= Machine::deliver(old(self)@.stack, val@));
                    },
                    None => {
                        self.set_pc(pc + 1);
                    },
                }
            },
            Val::List(list) => {
                proof {
                    lemma_list_view(*list);
                }
                let form = copy_vals(list);
                self.add_stackframe(form);
            },
            _ => {
                self.set_pc(pc + 1);
            },
        }
    }

    /// Takes one step. Returns the result once the stack has run empty and no
    /// stack is parked; takes the stack that was parked last up again where
    /// one is. While a message waits for the host, a step changes nothing and
    /// returns no result.
    pub fn step(&mut self) -> (r: Option<Val>)
        requires
            old(self)@.wf(),
        ensures
            final(self)@ == old(self)@.step(),
            final(self)@.wf(),
            match r {
                Some(v) => old(self)@.step_result() == Some(v@),
                None => old(self)@.step_result() is None,
            },
    {
        if self.stack.len() > 0 {
            self.step_inner();
        }
        if self.stack.len() == 0 {
            match self.back_stack.pop() {
                None => Some(self.result.clone()),
                Some(stack) => {
                    self.stack = stack;
                    assert(stacks(self.back_stack@) =~= old(self)@.worked().back_stack.drop_last());
                    None
                },
            }
        } else {
            None
        }
    }

    /// Drops the stack and starts on a program.
    pub fn set_program(&mut self, val: Val)
        requires
            old(self)@.wf(),
        ensures
            final(self)@ == old(self)@.set_program(val@),
            final(self)@.wf(),
    {
        self.stack.clear();
        assert(frames(self.stack@) =~= Seq::<Frame>::empty());
        match &val {
            Val::List(list) => {
                proof {
                    lemma_list_view(*list);
                }
                self.add_stackframe(copy_vals(list));
            },
            _ => {
                self.result = builtins::resolve(self, &val);
            },
        }
    }

    /// Whether there is work to do and nothing that the host has to see to
    /// first.
    pub fn running(&self) -> (r: bool)
        ensures
            r == self@.running(),
    {
        (self.stack.len() > 0 || self.back_stack.len() > 0) && self.events.len() == 0
            && !self.message_pending()
    }

    /// Whether nothing is left to do or to see to.
    pub fn finished(&self) -> (r: bool)
        ensures
            r == self@.finished(),
    {
        self.stack.len() == 0 && self.back_stack.len() == 0 && self.events.len() == 0
    }

    /// Takes steps while the state is running, up to the first that returns a
    /// result, and at most as many as the step budget allows.
    pub fn run(&mut self) -> (r: Option<Val>)
        requires
            old(self)@.wf(),
        ensures
            final(self)@ == old(self)@.run(STEP_BUDGET as nat),
            final(self)@.wf(),
            match r {
                Some(v) => old(self)@.run_result(STEP_BUDGET as nat) == Some(v@),
                None => old(self)@.run_result(STEP_BUDGET as nat) is None,
            },
    {
        let mut fuel: usize = STEP_BUDGET;
        while fuel > 0 && self.running()
            invariant
                self@.wf(),
                old(self)@.run(STEP_BUDGET as nat) == self@.run(fuel as nat),
                old(self)@.run_result(STEP_BUDGET as nat) == self@.run_result(fuel as nat),
            decreases fuel,
        {
            if let Some(result) = self.step() {
                return Some(result);
            }
            fuel -= 1;
        }
        None
    }

    /// Takes the first event out of the queue.
    pub fn take_event(&mut self) -> (r: Option<Val>)
        ensures
            match r {
                Some(v) => old(self)@.events.len() > 0 && v@ == old(self)@.events[0]
                    && final(self)@ == (Machine {
                    events: old(self)@.events.drop_first(),
                    ..old(self)@
                }),
                None => old(self)@.events.len() == 0 && final(self)@ == old(self)@,
            },
    {
        if self.events.len() == 0 {
            None
        } else {
            let event = self.events.remove(0);
            assert(terms(self.events@) =~= old(self)@.events.drop_first());
            Some(event)
        }
    }

    /// Parks the stack and starts on a program. When that program has ended,
    /// the next step takes the parked stack up again.
    pub fn interrupt(&mut self, val: Val)
        requires
            old(self)@.wf(),
        ensures
            final(self)@ == old(self)@.interrupt(val@),
            final(self)@.wf(),
    {
        let parked = copy_stack(&self.stack);
        self.back_stack.push(parked);
        assert(stacks(self.back_stack@) =~= old(self)@.back_stack.push(old(self)@.stack));
        self.set_program(val);
    }

    /// Registers a name as the marker of a message to the host.
    pub fn message_add(&mut self, message: &str)
        requires
            old(self)@.wf(),
        ensures
            final(self)@ == old(self)@.message_add(message@),
            final(self)@.wf(),
    {
        let name = message.to_owned();
        self.set_var(&name, Val::Message(message.to_owned()));
    }

    /// The message that waits for the host, if there is one.
    pub fn message_peek(&self) -> (r: Option<Vec<Val>>)
        ensures
            match r {
                Some(v) => self@.message_peek() == Some(terms(v@)),
                None => self@.message_peek() is None,
            },
    {
        let n = self.stack.len();
        if n == 0 {
            return None;
        }
        let frame = &self.stack[n - 1];
        if frame.accum.len() == 0 {
            return None;
        }
        if frame.pc < frame.accum.len() {
            return None;
        }
        match &frame.accum[0] {
            Val::Message(message) => {
                let rest = tail(&frame.accum, 1);
                let result = builtins::fronted(Val::Sym(message.clone()), &rest);
                Some(result)
            },
            _ => None,
        }
    }

    /// The name of the file that a pending `load` asks the host for.
    pub fn wanted_file(&self) -> (r: Option<String>)
        ensures
            match r {
                Some(name) => self@.wanted_file() == Some(name@),
                None => self@.wanted_file() is None,
            },
    {
        let n = self.stack.len();
        if n == 0 {
            return None;
        }
        let frame = &self.stack[n - 1];
        if frame.accum.len() != 2 || frame.pc < 2 {
            return None;
        }
        let ghost accum = self@.stack.last().accum;
        assert(accum.subrange(1, 2) =~= seq![accum[1]]);
        match &frame.accum[0] {
            Val::Message(message) => {
                let ghost peek = seq![Term::Sym(message@)] + accum.subrange(1, 2);
                assert(self@.message_peek() == Some(peek));
                assert(peek.len() == 2 && peek[0] == Term::Sym(message@) && peek[1] == accum[1]);
                if !is_word(message, "load") {
                    return None;
                }
                match &frame.accum[1] {
                    Val::String(name) => Some(name.clone()),
                    _ => None,
                }
            },
            _ => None,
        }
    }

    /// Answers a pending `load` with the text of the file, or with none where
    /// the host could not read it. Says whether a `load` was pending.
    pub fn answer_load(&mut self, text: Option<String>) -> (r: bool)
        requires
            old(self)@.wf(),
        ensures
            final(self)@ == old(self)@.answer_load(
                match text {
                    Some(source) => Some(source@),
                    None => None,
                },
            ),
            r == (old(self)@.wanted_file() is Some),
            final(self)@.wf(),
    {
        match self.wanted_file() {
            Some(name) => {
                match text {
                    Some(source) => {
                        self.replace_stackframe(crate::val::p_all(source.as_str()));
                    },
                    None => {
                        let mut line = "Could not load file: ".to_owned();
                        line.append(name.as_str());
                        self.print_error(line);
                        self.return_stackframe(Val::nil());
                    },
                }
                true
            },
            None => false,
        }
    }

    /// Answers the message that waits: the call ends with `val`.
    pub fn message_return(&mut self, val: Val)
        requires
            old(self)@.wf(),
            old(self)@.awaits_message(),
        ensures
            final(self)@ == old(self)@.return_stackframe(val@),
            final(self)@.wf(),
    {
        self.return_stackframe(val);
    }
}

/// Evaluates a program in a state, in at most as many steps as the step
/// budget allows; a program that takes more gives the symbol that says so,
/// and so does one that sends a message, which waits for its answer. Events
/// stay in the queue for the host.
pub fn eval_s(val: &Val, state: &mut State) -> (r: Val)
    requires
        old(state)@.wf(),
    ensures
        final(state)@ == old(state)@.set_program(val@).steps(STEP_BUDGET as nat),
        final(state)@.wf(),
        r@ == match old(state)@.set_program(val@).steps_result(STEP_BUDGET as nat) {
            Some(v) => v,
            None => Term::Sym("Error: Too many steps"@),
        },
{
    state.set_program(val.clone());
    let ghost start = state@;
    let mut fuel: usize = STEP_BUDGET;
    while fuel > 0
        invariant
            state@.wf(),
            start == old(state)@.set_program(val@),
            start.steps(STEP_BUDGET as nat) == state@.steps(fuel as nat),
            start.steps_result(STEP_BUDGET as nat) == state@.steps_result(fuel as nat),
        decreases fuel,
    {
        if let Some(result) = state.step() {
            return result;
        }
        fuel -= 1;
    }
    Val::sym("Error: Too many steps")
}


impl State {
    /// A state at its start, with the native procedures bound in the root.
    pub fn new() -> (r: State)
        ensures
            r@ == Machine::initial(),
            r@.wf(),
    {
        let mut vars = VarSpace::new();
        let root = vars.root();
        vars.set_all(root, builtins::get_builtins());
        let r = State {
            vars,
            result: Val::nil(),
            stack: Vec::new(),
            back_stack: Vec::new(),
            events: Vec::new(),
        };
        assert(frames(r.stack@) =~= Seq::<Frame>::empty());
        assert(stacks(r.back_stack@) =~= Seq::<Seq<Frame>>::empty());
        assert(terms(r.events@) =~= Seq::<Term>::empty());
        r
    }
}

/// Evaluates a program in a state of its own.
pub fn eval(val: Val) -> (r: Val)
    ensures
        r@ == match Machine::initial().set_program(val@).steps_result(STEP_BUDGET as nat) {
            Some(v) => v,
            None => Term::Sym("Error: Too many steps"@),
        },
{
    let mut state = State::new();
    eval_s(&val, &mut state)
}


/// The line that the host prints for an event, if it prints one.
fn line_of(event: &Val) -> (r: Option<String>)
    ensures
        match r {
            Some(line) => event_line(event@) == Some(line@),
            None => event_line(event@) is None,
        },
{
    match event {
        Val::List(list) => {
            proof {
                lemma_list_view(*list);
            }
            if list.len() == 0 {
                return None;
            }
            match &list[0] {
                Val::Sym(sym) => {
                    if is_word(sym, "print") {
                        if list.len() > 1 {
                            match &list[1] {
                                Val::Sym(str) => Some(str.clone()),
                                _ => Some(list[1].to_string()),
                            }
                        } else {
                            None
                        }
                    } else {
                        let mut line = "Unknown event: ".to_owned();
                        let shown = event.to_string();
                        line.append(shown.as_str());
                        Some(line)
                    }
                },
                _ => None,
            }
        },
        _ => None,
    }
}

impl State {
    /// Empties the queue of events and returns the lines that the host is to
    /// print for them, in their order.
    pub fn process_events(&mut self) -> (r: Vec<String>)
        ensures
            lines(r@) == event_lines(old(self)@.events, old(self)@.events.len()),
            final(self)@ == (Machine { events: Seq::empty(), ..old(self)@ }),
    {
        let mut out: Vec<String> = Vec::new();
        let mut i: usize = 0;
        assert(lines(out@) =~= event_lines(self@.events, 0));
        while i < self.events.len()
            invariant
                i <= self.events.len(),
                *self == *old(self),
                lines(out@) == event_lines(self@.events, i as nat),
            decreases self.events.len() - i,
        {
            match line_of(&self.events[i]) {
                Some(line) => {
                    let ghost before = lines(out@);
                    out.push(line);
                    assert(lines(out@) =~= before.push(line@));
                },
                None => {},
            }
            i += 1;
        }
        self.events.clear();
        assert(terms(self.events@) =~= Seq::<Term>::empty());
        out
    }

    /// Evaluates the expressions of a library text as one form, in at most as
    /// many steps as the step budget allows. Events stay in the queue for the
    /// host.
    pub fn load_lib(&mut self, source: &str)
        requires
            old(self)@.wf(),
        ensures
            final(self)@ == old(self)@.add_stackframe(crate::val::parsed_all(source@)).steps(
                STEP_BUDGET as nat,
            ),
            final(self)@.wf(),
    {
        let val = crate::val::p_all(source);
        self.add_stackframe(val);
        let ghost start = self@;
        let mut fuel: usize = STEP_BUDGET;
        while fuel > 0
            invariant
                self@.wf(),
                start == old(self)@.add_stackframe(crate::val::parsed_all(source@)),
                start.steps(STEP_BUDGET as nat) == self@.steps(fuel as nat),
            decreases fuel,
        {
            if let Some(_) = self.step() {
                return ;
            }
            fuel -= 1;
        }
    }

    /// A measure of the memory that the scopes take, held at the largest
    /// `usize`.
    pub fn memory_usage(&self) -> (r: usize)
        ensures
            r == crate::val::capped(self@.vars.memory_usage()),
    {
        self.vars.memory_usage()
    }

    /// A description of the scopes.
    pub fn describe(&self) -> (r: String)
        ensures
            r@ == self@.vars.describe(),
    {
        self.vars.describe()
    }
}

} // verus!
