//! What holds of the evaluator whatever the program: laws that relate the
//! operations of the arena, of the machine and of the native procedures.

use crate::builtins::{
    chained, choose_branch, compare, compared, div, first_number, folded, if_, minus, modulo, mult,
    plus, truth_of,
};
use crate::exec::{Frame, Machine};
use crate::number;
use crate::number::{Arith, Order};
use crate::val::{Native, Term};
use crate::variables::{bound, find, lemma_find, put, Arena, ScopeRef};
use vstd::prelude::*;

verus! {

broadcast use crate::exec::law_release_keeps_frames;

/// Without arguments a sum is 0.
pub proof fn law_empty_sum(m: Machine)
    ensures
        plus(m, Seq::empty()) == m.return_stackframe(Term::Num(number::ZERO)),
{
}

/// The difference of one number is the number negated, and the quotient of
/// one number is 1 over the number.
pub proof fn law_single_argument(m: Machine, a: u32)
    ensures
        minus(m, seq![Term::Num(a)]) == m.return_stackframe(Term::Num(number::negated(a))),
        div(m, seq![Term::Num(a)]) == m.return_stackframe(
            Term::Num(number::quotient(number::ONE, a)),
        ),
{
}

/// A fold goes from left to right: a further number at the end is combined
/// with the fold of what stands before it.
pub proof fn law_fold_left_to_right(op: Arith, args: Seq<Term>, x: u32, from: int, start: u32)
    requires
        0 <= from <= args.len(),
    ensures
        folded(op, args.push(Term::Num(x)), from, args.len() as int + 1, start) == op.apply(
            folded(op, args, from, args.len() as int, start),
            x,
        ),
{
    lemma_fold_prefix(op, args, args.push(Term::Num(x)), from, args.len() as int, start);
}

/// A fold passes over what is no number: a further argument at the end that
/// is no number leaves the fold as it was.
pub proof fn law_fold_ignores_others(op: Arith, args: Seq<Term>, other: Term, from: int, start: u32)
    requires
        0 <= from <= args.len(),
        !(other is Num),
    ensures
        folded(op, args.push(other), from, args.len() as int + 1, start) == folded(
            op,
            args,
            from,
            args.len() as int,
            start,
        ),
{
    lemma_fold_prefix(op, args, args.push(other), from, args.len() as int, start);
}

/// A fold over the first `n` arguments looks at those arguments only.
proof fn lemma_fold_prefix(op: Arith, a: Seq<Term>, b: Seq<Term>, from: int, n: int, start: u32)
    requires
        0 <= from,
        n <= a.len(),
        n <= b.len(),
        forall|i: int| 0 <= i < n ==> a[i] == b[i],
    ensures
        folded(op, a, from, n, start) == folded(op, b, from, n, start),
    decreases n - from,
{
    if n > from {
        lemma_fold_prefix(op, a, b, from, n - 1, start);
    }
}

/// Whether each number of the sequence is admitted behind the one before
/// it, pair by pair.
pub open spec fn pairwise(order: Order, nums: Seq<u32>) -> bool {
    forall|i: int| 0 <= i < nums.len() - 1 ==> order.admits(#[trigger] nums[i], nums[i + 1])
}

/// The numbers as arguments.
pub open spec fn as_terms(nums: Seq<u32>) -> Seq<Term> {
    Seq::new(nums.len(), |i: int| Term::Num(nums[i]))
}

/// A comparison of numbers is a chain: it holds if and only if it holds of
/// each number and the next. With one argument it is true; without
/// arguments `<=` and `>=` are true, `<` and `>` false.
pub proof fn law_comparison_is_chained(order: Order, m: Machine, nums: Seq<u32>)
    ensures
        compare(order, m, as_terms(nums)) == m.return_stackframe(
            truth_of(
                if nums.len() == 0 {
                    order.holds_of_none()
                } else {
                    pairwise(order, nums)
                },
            ),
        ),
{
    if nums.len() >= 2 {
        lemma_chain(order, nums, 1);
        assert(pairwise(order, nums) <==> forall|i: int|
            0 <= i < nums.len() - 1 ==> order.admits(#[trigger] nums[i], nums[i + 1]));
    }
}

/// A chain behind a number holds exactly if each of the following pairs is
/// admitted.
proof fn lemma_chain(order: Order, nums: Seq<u32>, i: int)
    requires
        1 <= i <= nums.len(),
    ensures
        chained(order, as_terms(nums), i, nums[i - 1]) <==> forall|j: int|
            i - 1 <= j < nums.len() - 1 ==> order.admits(#[trigger] nums[j], nums[j + 1]),
    decreases nums.len() - i,
{
    if i < nums.len() {
        lemma_chain(order, nums, i + 1);
        if chained(order, as_terms(nums), i, nums[i - 1]) {
            assert forall|j: int| i - 1 <= j < nums.len() - 1 implies order.admits(
                #[trigger] nums[j],
                nums[j + 1],
            ) by {
                if j == i - 1 {
                } else {
                }
            }
        }
    }
}

/// Between numbers of which none is a NaN, `<` admits exactly the pairs that
/// rise, `>` those that fall, and `<=` and `>=` those that do not fall or
/// rise.
pub proof fn law_strict_order(prev: u32, next: u32)
    requires
        !number::is_nan(prev),
        !number::is_nan(next),
    ensures
        Order::Less.admits(prev, next) <==> number::num_lt(prev, next),
        Order::Greater.admits(prev, next) <==> number::num_lt(next, prev),
        Order::LessEq.admits(prev, next) <==> number::num_le(prev, next),
        Order::GreaterEq.admits(prev, next) <==> number::num_le(next, prev),
{
}

/// The end of a frame makes the stack one frame shorter, and hands the value
/// to the frame below, at its cursor, which moves on.
pub proof fn law_return_delivers(m: Machine, val: Term)
    requires
        m.stack.len() >= 2,
        0 <= m.stack[m.stack.len() - 2].pc < m.stack[m.stack.len() - 2].accum.len(),
    ensures
        m.return_stackframe(val).stack.len() == m.stack.len() - 1,
        m.return_stackframe(val).stack.last().accum == m.stack[m.stack.len() - 2].accum.update(
            m.stack[m.stack.len() - 2].pc,
            val,
        ),
        m.return_stackframe(val).stack.last().pc == m.stack[m.stack.len() - 2].pc + 1,
        forall|i: int|
            0 <= i < m.stack.len() - 2 ==> m.return_stackframe(val).stack[i] == m.stack[i],
{
}

/// The end of the last frame makes the value the result.
pub proof fn law_return_of_last_frame(m: Machine, val: Term)
    requires
        m.stack.len() == 1,
    ensures
        m.return_stackframe(val).stack.len() == 0,
        m.return_stackframe(val).result == val,
{
}

/// Applying a closure never makes the stack deeper: the body takes the
/// place of the call in the active frame, or the frame ends.
#[verifier::rlimit(30)]
pub proof fn law_closure_call_keeps_depth(m: Machine)
    requires
        m.stack.len() > 0,
        m.stack.last().accum.len() > 0,
    ensures
        m.call_closure().stack.len() <= m.stack.len(),
{
}

/// The branch that a conditional chooses never makes the stack deeper: a
/// form takes the place of the conditional in the active frame.
pub proof fn law_branch_keeps_depth(m: Machine, val: Term)
    ensures
        choose_branch(m, val).stack.len() <= m.stack.len(),
{
}

/// A conditional whose condition is evaluated never makes the stack deeper.
#[verifier::rlimit(30)]
pub proof fn law_decided_conditional_keeps_depth(m: Machine, args: Seq<Term>)
    requires
        m.stack.len() > 0,
        m.stack.last().pc > 1,
    ensures
        if_(m, args).stack.len() <= m.stack.len(),
{
}

/// A message that waits for the host holds the machine: it is not running,
/// and a run takes no step.
pub proof fn law_message_holds_the_machine(m: Machine, fuel: nat)
    requires
        m.message_peek() is Some,
    ensures
        !m.running(),
        m.run(fuel) == m,
        m.run_result(fuel) is None,
{
}

/// An event in the queue holds the machine in the same way.
pub proof fn law_event_holds_the_machine(m: Machine, fuel: nat)
    requires
        m.events.len() > 0,
    ensures
        !m.running(),
        m.run(fuel) == m,
        m.run_result(fuel) is None,
{
}

/// A message names the marker at the head of the active frame and holds the
/// values of the arguments behind it.
pub proof fn law_message_holds_the_call(m: Machine)
    requires
        m.message_peek() is Some,
    ensures
        m.awaits_message(),
        m.message_peek()->0.len() == m.stack.last().accum.len(),
        m.message_peek()->0[0] == Term::Sym(m.stack.last().accum[0]->Message_0),
        forall|i: int|
            1 <= i < m.stack.last().accum.len() ==> m.message_peek()->0[i]
                == m.stack.last().accum[i],
{
}

/// An interrupt parks the stack as it is, on top of the stacks that were
/// parked before.
pub proof fn law_interrupt_parks(m: Machine, val: Term)
    ensures
        m.interrupt(val).back_stack == m.back_stack.push(m.stack),
{
}

/// Whether the active frame is about to apply `set-program`.
pub open spec fn applies_set_program(m: Machine) -> bool {
    m.stack.len() > 0 && m.stack.last().accum.len() > 0 && (m.stack.last().accum[0] matches Term::Builtin(
        _,
        Native::SetProgram,
    ))
}

/// The end of a frame leaves the parked stacks as they are.
pub broadcast proof fn lemma_return_keeps_parked(m: Machine, val: Term)
    ensures
        (#[trigger] m.return_stackframe(val)).back_stack == m.back_stack,
{
}

/// A definition leaves the parked stacks as they are.
proof fn lemma_define_keeps_parked(m: Machine, args: Seq<Term>)
    ensures
        crate::builtins::define(m, args).back_stack == m.back_stack,
        crate::builtins::define_syntax(m, args).back_stack == m.back_stack,
{
    broadcast use lemma_return_keeps_parked;

}

/// A conditional and a request for a file leave the parked stacks as they
/// are.
proof fn lemma_if_keeps_parked(m: Machine, args: Seq<Term>)
    ensures
        if_(m, args).back_stack == m.back_stack,
        crate::builtins::load(m, args).back_stack == m.back_stack,
{
    broadcast use lemma_return_keeps_parked;

}

/// A native procedure other than `set-program` leaves the parked stacks as
/// they are.
pub proof fn law_native_keeps_parked(m: Machine, procedure: Native, args: Seq<Term>)
    requires
        procedure != Native::SetProgram,
    ensures
        crate::builtins::native(m, procedure, args).back_stack == m.back_stack,
{
    broadcast use lemma_return_keeps_parked;

    match procedure {
        Native::Define | Native::DefineSyntax => {
            lemma_define_keeps_parked(m, args);
        },
        Native::If | Native::Load => {
            lemma_if_keeps_parked(m, args);
        },
        Native::Format => {
            assert(crate::builtins::format(m, args) == m.return_stackframe(
                Term::Text(crate::builtins::formatted(args, args.len() as int)),
            ));
        },
        _ => {},
    }
}

/// The call of a closure leaves the parked stacks as they are.
pub proof fn law_call_closure_keeps_parked(m: Machine)
    requires
        m.stack.len() > 0,
        m.stack.last().accum.len() > 0,
    ensures
        m.call_closure().back_stack == m.back_stack,
{
    broadcast use lemma_return_keeps_parked;

}

/// The work of a step leaves the parked stacks as they are, unless it
/// applies `set-program`.
pub proof fn law_work_keeps_parked(m: Machine)
    requires
        !applies_set_program(m),
    ensures
        m.worked().back_stack == m.back_stack,
{
    broadcast use lemma_return_keeps_parked;

    if m.stack.len() > 0 {
        let frame = m.stack.last();
        if frame.accum.len() > 0 {
            match frame.accum[0] {
                Term::Builtin(_, procedure) => {
                    law_native_keeps_parked(
                        m,
                        procedure,
                        frame.accum.subrange(1, frame.accum.len() as int),
                    );
                },
                _ => {
                    law_call_closure_keeps_parked(m);
                },
            }
        }
        assert(m.call().back_stack == m.back_stack);
    }
}

/// When the stack has run empty, a step takes up the stack that was parked
/// last, as it was parked, and returns no result.
pub proof fn law_step_resumes(m: Machine)
    requires
        m.worked().stack.len() == 0,
        m.worked().back_stack.len() > 0,
    ensures
        m.step().stack == m.worked().back_stack.last(),
        m.step().back_stack == m.worked().back_stack.drop_last(),
        m.step_result() is None,
{
}

/// A parked frame keeps its scope: no step gives up a scope in which a
/// parked frame works, or a scope around it.
pub proof fn law_parked_scope_is_kept(m: Machine, scope: ScopeRef, k: int, i: int)
    requires
        0 <= k < m.back_stack.len(),
        0 <= i < m.back_stack[k].len(),
        m.vars.scope_has_ancestor(m.back_stack[k][i].vars, scope),
    ensures
        m.release(scope) == m,
{
    assert(m.back_stack[k][i].references(m.vars, scope));
    assert(crate::exec::stack_references(m.back_stack[k], m.vars, scope));
}

/// The same holds of the frames of the stack.
pub proof fn law_active_scope_is_kept(m: Machine, scope: ScopeRef, i: int)
    requires
        0 <= i < m.stack.len(),
        m.vars.scope_has_ancestor(m.stack[i].vars, scope),
    ensures
        m.release(scope) == m,
{
    assert(m.stack[i].references(m.vars, scope));
}

/// The root is never given up.
pub proof fn law_root_is_kept(m: Machine)
    ensures
        m.release(Arena::root()) == m,
        m.vars.remove_inner(Arena::root()) == m.vars,
{
}

/// A binding is seen from its own scope at once.
pub proof fn law_set_then_get(a: Arena, scope: ScopeRef, name: Seq<char>, val: Term)
    requires
        a.live(scope),
    ensures
        a.set(scope, name, val).get(scope, name) == Some(val),
{
    let vars = a.scopes[scope.0 as int].vars;
    lemma_put_binds(vars, name, val);
}

/// After `put`, the name is bound to the value.
pub proof fn lemma_put_binds(vars: Seq<(Seq<char>, Term)>, name: Seq<char>, val: Term)
    ensures
        bound(put(vars, name, val), name) == Some(val),
{
    lemma_find(vars, name, vars.len());
    let after = put(vars, name, val);
    lemma_find(after, name, after.len());
    match find(vars, name, vars.len()) {
        Some(i) => {
            assert(after[i].0 == name);
            assert(forall|j: int| 0 <= j < i ==> after[j] == vars[j]);
            assert(find(after, name, after.len()) == Some(i));
        },
        None => {
            let n = vars.len() as int;
            assert(after[n].0 == name);
            assert(forall|j: int| 0 <= j < n ==> after[j] == vars[j]);
            assert(find(after, name, after.len()) == Some(n));
        },
    }
}

/// A scope without a binding of its own for a name sees what its parent
/// sees.
pub proof fn law_child_sees_parent(a: Arena, scope: ScopeRef, name: Seq<char>)
    requires
        a.wf(),
        a.holds(scope),
        scope != Arena::root(),
        bound(a.scopes[scope.0 as int].vars, name) is None,
    ensures
        a.get(scope, name) == a.get(a.parent(scope), name),
{
    assert(a.depth[scope.0 as int] == a.depth[a.scopes[scope.0 as int].parent.0 as int] + 1);
}

/// A binding in the nearer scope wins over those of the scopes around it.
pub proof fn law_nearer_binding_wins(a: Arena, scope: ScopeRef, name: Seq<char>)
    requires
        a.holds(scope),
        bound(a.scopes[scope.0 as int].vars, name) is Some,
    ensures
        a.get(scope, name) == bound(a.scopes[scope.0 as int].vars, name),
{
}

/// Nothing is bound in the root that a lookup from the root does not see,
/// and a lookup from the root sees nothing else.
pub proof fn law_root_sees_its_own(a: Arena, name: Seq<char>)
    requires
        a.holds(Arena::root()),
    ensures
        a.get(Arena::root(), name) == bound(a.scopes[0].vars, name),
{
}

/// A new scope reuses a slot of the free-list where there is one: the arena
/// does not grow.
pub proof fn law_new_child_recycles(a: Arena, parent: ScopeRef)
    requires
        a.wf(),
        a.free.len() > 0,
    ensures
        a.new_child(parent).scopes.len() == a.scopes.len(),
        a.new_child(parent).free.len() == a.free.len() - 1,
        a.is_free(a.next()),
        a.new_child(parent).scopes[a.next().0 as int] == crate::variables::ScopeModel::empty(
            a.foster(parent),
        ),
{
    assert(a.is_free(a.free[a.free.len() - 1]));
}

/// A new scope hangs below the scope asked for if that is in use, and
/// stands below each scope that this one stands below.
pub proof fn law_new_child_stands_below(a: Arena, parent: ScopeRef, ancestor: ScopeRef)
    requires
        a.wf(),
        a.has_room(),
        a.live(parent),
        a.scope_has_ancestor(parent, ancestor),
        ancestor != a.next(),
    ensures
        a.new_child(parent).parent(a.next()) == parent,
        a.new_child(parent).scope_has_ancestor(a.next(), ancestor),
{
    let b = a.new_child(parent);
    let slot = a.next();
    crate::variables::lemma_new_child(a, parent);
    if a.free.len() > 0 {
        assert(a.is_free(a.free[a.free.len() - 1]));
    }
    assert(b.holds(slot) && b.scopes[slot.0 as int].parent == parent);
    assert(b.depth[slot.0 as int] == b.depth[b.scopes[slot.0 as int].parent.0 as int] + 1);
    lemma_new_child_keeps_ancestors(a, parent, parent, ancestor);
}

/// A new scope changes nothing on the way up from a scope in use.
pub proof fn lemma_new_child_keeps_ancestors(
    a: Arena,
    parent: ScopeRef,
    from: ScopeRef,
    ancestor: ScopeRef,
)
    requires
        a.wf(),
        a.has_room(),
        a.live(from),
        ancestor != a.next(),
    ensures
        a.new_child(parent).scope_has_ancestor(from, ancestor) == a.scope_has_ancestor(
            from,
            ancestor,
        ),
    decreases a.depth_of(from),
{
    let b = a.new_child(parent);
    let slot = a.next();
    if a.free.len() > 0 {
        assert(a.is_free(a.free[a.free.len() - 1]));
    }
    assert(from != slot);
    assert(b.scopes[from.0 as int] == a.scopes[from.0 as int]);
    assert(b.depth[from.0 as int] == a.depth[from.0 as int]);
    if from != ancestor && from != Arena::root() {
        let up = a.scopes[from.0 as int].parent;
        assert(a.depth[from.0 as int] == a.depth[a.scopes[from.0 as int].parent.0 as int] + 1);
        assert(!a.scopes[up.0 as int].free);
        assert(up != slot);
        assert(b.depth[up.0 as int] == a.depth[up.0 as int]);
        assert(a.climbs(from));
        assert(b.climbs(from));
        lemma_new_child_keeps_ancestors(a, parent, up, ancestor);
    }
}

/// A binding is made in exactly one scope: every other scope stays as it
/// is, and so do the parent of the scope and the free-list.
pub proof fn law_set_touches_one_scope(a: Arena, scope: ScopeRef, name: Seq<char>, val: Term)
    ensures
        a.set(scope, name, val).scopes.len() == a.scopes.len(),
        a.set(scope, name, val).free == a.free,
        forall|i: int|
            0 <= i < a.scopes.len() && i != scope.0 ==> a.set(scope, name, val).scopes[i]
                == a.scopes[i],
        forall|s: ScopeRef| a.set(scope, name, val).parent(s) == a.parent(s),
{
}

/// After `put`, every other name is bound as before.
pub proof fn lemma_put_keeps_others(
    vars: Seq<(Seq<char>, Term)>,
    name: Seq<char>,
    val: Term,
    other: Seq<char>,
)
    requires
        other != name,
    ensures
        bound(put(vars, name, val), other) == bound(vars, other),
{
    let after = put(vars, name, val);
    lemma_find(vars, name, vars.len());
    lemma_find(vars, other, vars.len());
    lemma_find(after, other, after.len());
    match find(vars, other, vars.len()) {
        Some(k) => {
            assert(after[k].0 == other);
            assert(forall|j: int| 0 <= j < k ==> after[j].0 != other);
            assert(find(after, other, after.len()) == Some(k));
            assert(after[k].1 == vars[k].1);
        },
        None => {
            assert(forall|j: int| 0 <= j < after.len() ==> after[j].0 != other);
            assert(find(after, other, after.len()) is None);
        },
    }
}

/// A binding leaves every other name as it was, seen from any scope.
pub proof fn law_set_keeps_other_names(
    a: Arena,
    scope: ScopeRef,
    name: Seq<char>,
    val: Term,
    from: ScopeRef,
    other: Seq<char>,
)
    requires
        other != name,
    ensures
        a.set(scope, name, val).get(from, other) == a.get(from, other),
    decreases a.depth_of(from),
{
    let b = a.set(scope, name, val);
    if a.holds(from) {
        if a.live(scope) {
            lemma_put_keeps_others(a.scopes[scope.0 as int].vars, name, val, other);
        }
        assert(bound(b.scopes[from.0 as int].vars, other) == bound(
            a.scopes[from.0 as int].vars,
            other,
        ));
        assert(b.scopes[from.0 as int].parent == a.scopes[from.0 as int].parent);
        assert(b.depth == a.depth);
        if a.climbs(from) {
            law_set_keeps_other_names(a, scope, name, val, a.parent(from), other);
        }
    }
}

/// Whether `scope` is `from` or stands above it, and no scope on the way up
/// from `from` to `scope` binds the name, `scope` itself left aside.
pub open spec fn sees_through(a: Arena, from: ScopeRef, scope: ScopeRef, name: Seq<char>) -> bool
    decreases a.depth_of(from),
{
    from == scope || (a.climbs(from) && bound(a.scopes[from.0 as int].vars, name) is None
        && sees_through(a, a.parent(from), scope, name))
}

/// A binding is seen at once from every scope below, as long as no scope on
/// the way binds the name itself: a closure that captured such a scope sees
/// the new value the next time it looks the name up.
pub proof fn law_set_is_seen_from_below(
    a: Arena,
    scope: ScopeRef,
    name: Seq<char>,
    val: Term,
    from: ScopeRef,
)
    requires
        a.live(scope),
        sees_through(a, from, scope, name),
    ensures
        a.set(scope, name, val).get(from, name) == Some(val),
    decreases a.depth_of(from),
{
    let b = a.set(scope, name, val);
    law_set_then_get(a, scope, name, val);
    if from != scope {
        assert(b.scopes[from.0 as int] == a.scopes[from.0 as int]);
        assert(b.depth == a.depth);
        assert(b.climbs(from));
        law_set_is_seen_from_below(a, scope, name, val, a.parent(from));
    }
}

/// A binding in a scope is not seen from a scope that does not stand below
/// it: what such a scope sees stays as it was. A closure that captured such
/// a scope goes on returning what it captured.
pub proof fn law_set_is_not_seen_elsewhere(
    a: Arena,
    scope: ScopeRef,
    name: Seq<char>,
    val: Term,
    from: ScopeRef,
)
    requires
        !a.scope_has_ancestor(from, scope),
    ensures
        a.set(scope, name, val).get(from, name) == a.get(from, name),
    decreases a.depth_of(from),
{
    let b = a.set(scope, name, val);
    if a.holds(from) {
        assert(from != scope);
        assert(b.scopes[from.0 as int] == a.scopes[from.0 as int]);
        assert(b.depth == a.depth);
        if a.climbs(from) {
            law_set_is_not_seen_elsewhere(a, scope, name, val, a.parent(from));
        }
    }
}

/// Removing a scope takes none off the free-list, and puts the scope on it
/// if it was in use.
pub proof fn lemma_remove_frees(a: Arena, removed: ScopeRef, scope: ScopeRef)
    requires
        a.wf(),
        a.is_free(scope) || (scope == removed && scope != Arena::root() && a.live(scope)),
    ensures
        a.remove(removed).is_free(scope),
{
    crate::variables::lemma_remove(a, removed);
    let b = a.remove(removed);
    assert(a.holds(scope));
    assert(b.scopes[scope.0 as int] == (if a.removes(removed, scope) {
        crate::variables::ScopeModel::freed()
    } else {
        a.scopes[scope.0 as int]
    }));
}

/// Giving scopes up takes none off the free-list.
pub proof fn lemma_release_keeps_free(m: Machine, from: ScopeRef, scope: ScopeRef)
    requires
        m.vars.wf(),
        m.vars.is_free(scope),
    ensures
        m.release(from).vars.is_free(scope),
        m.release(from).vars.wf(),
    decreases m.vars.depth_of(from),
{
    if from != Arena::root() && m.vars.holds(from) && !m.references(from) {
        lemma_remove_frees(m.vars, from, scope);
        crate::variables::lemma_remove(m.vars, from);
        let freed = Machine { vars: m.vars.remove(from), ..m };
        let parent = m.vars.parent(from);
        if freed.vars.depth_of(parent) < m.vars.depth_of(from) {
            lemma_release_keeps_free(freed, parent, scope);
        }
    }
}

/// A scope in use that nothing references is free once it is given up.
pub proof fn law_released_scope_is_free(m: Machine, scope: ScopeRef)
    requires
        m.vars.wf(),
        scope != Arena::root(),
        m.vars.live(scope),
        !m.references(scope),
    ensures
        m.release(scope).vars.is_free(scope),
{
    lemma_remove_frees(m.vars, scope, scope);
    crate::variables::lemma_remove(m.vars, scope);
    let freed = Machine { vars: m.vars.remove(scope), ..m };
    let parent = m.vars.parent(scope);
    if freed.vars.depth_of(parent) < m.vars.depth_of(scope) {
        lemma_release_keeps_free(freed, parent, scope);
    }
}

/// A scope that is referenced stays as it is when it is given up, and so
/// does everything else.
pub proof fn law_referenced_scope_is_kept(m: Machine, scope: ScopeRef)
    requires
        m.references(scope),
    ensures
        m.release(scope) == m,
{
}

/// The answer to a message ends the call: with no frame below, no message
/// waits any more.
pub proof fn law_answer_ends_the_last_call(m: Machine, val: Term)
    requires
        m.stack.len() == 1,
    ensures
        m.return_stackframe(val).message_peek() is None,
{
}

/// The answer to a message goes to the frame below, and no message waits as
/// long as that frame has more to evaluate.
pub proof fn law_answer_clears_the_message(m: Machine, val: Term)
    requires
        m.stack.len() >= 2,
        0 <= m.stack[m.stack.len() - 2].pc,
        m.stack[m.stack.len() - 2].pc + 1 < m.stack[m.stack.len() - 2].accum.len(),
    ensures
        m.return_stackframe(val).message_peek() is None,
        m.return_stackframe(val).stack.last().accum[m.stack[m.stack.len() - 2].pc] == val,
{
}

/// The machine after `n` steps.
pub open spec fn after(m: Machine, n: nat) -> Machine
    decreases n,
{
    if n == 0 {
        m
    } else {
        after(m.step(), (n - 1) as nat)
    }
}

/// Whether each of the next `n` steps leaves the stack with a frame and
/// applies no `set-program`.
pub open spec fn steady(m: Machine, n: nat) -> bool
    decreases n,
{
    n == 0 || (!applies_set_program(m) && m.worked().stack.len() > 0 && steady(
        m.step(),
        (n - 1) as nat,
    ))
}

/// While the stack does not run empty and no step applies `set-program`,
/// the parked stacks stay as they are, however many steps are taken.
pub proof fn law_parked_stacks_wait(m: Machine, n: nat)
    requires
        steady(m, n),
    ensures
        after(m, n).back_stack == m.back_stack,
    decreases n,
{
    if n > 0 {
        law_work_keeps_parked(m);
        law_parked_stacks_wait(m.step(), (n - 1) as nat);
    }
}

/// An interrupted computation comes back as it was: when the program of an
/// interrupt has run, over however many steps, until its stack is empty, the
/// next step puts the stack back that the interrupt parked, and the stacks
/// that were parked before are parked still.
pub proof fn law_interrupt_resumes(m: Machine, val: Term, n: nat)
    requires
        steady(m.interrupt(val), n),
        !applies_set_program(after(m.interrupt(val), n)),
        after(m.interrupt(val), n).worked().stack.len() == 0,
    ensures
        after(m.interrupt(val), n).step().stack == m.stack,
        after(m.interrupt(val), n).step().back_stack == m.back_stack,
        after(m.interrupt(val), n).step_result() is None,
{
    let start = m.interrupt(val);
    law_interrupt_parks(m, val);
    law_parked_stacks_wait(start, n);
    let end = after(start, n);
    law_work_keeps_parked(end);
    assert(end.worked().back_stack == m.back_stack.push(m.stack));
    assert(m.back_stack.push(m.stack).drop_last() =~= m.back_stack);
}

/// Among the numbers that are no NaN, `<` is a strict order in which every
/// two numbers are comparable: none is below itself, the order carries
/// over, and of two numbers one is below the other or they are equal.
pub proof fn law_numbers_are_ordered(a: u32, b: u32, c: u32)
    requires
        !number::is_nan(a),
        !number::is_nan(b),
        !number::is_nan(c),
    ensures
        !number::num_lt(a, a),
        number::num_eq(a, a),
        number::num_lt(a, b) && number::num_lt(b, c) ==> number::num_lt(a, c),
        number::num_lt(a, b) || number::num_lt(b, a) || number::num_eq(a, b),
        number::num_le(a, b) <==> number::num_lt(a, b) || number::num_eq(a, b),
        number::num_eq(a, b) ==> number::num_eq(b, a),
{
}

/// A NaN is below nothing, above nothing and equal to nothing, itself
/// included.
pub proof fn law_nan_compares_with_nothing(a: u32, b: u32)
    requires
        number::is_nan(a),
    ensures
        !number::num_lt(a, b),
        !number::num_lt(b, a),
        !number::num_le(a, b),
        !number::num_le(b, a),
        !number::num_eq(a, b),
        !number::num_eq(b, a),
{
}

/// The two zeros are equal, and negation turns the order round.
pub proof fn law_negation_mirrors(a: u32, b: u32)
    ensures
        number::num_eq(number::ZERO, number::negated(number::ZERO)),
        number::negated(number::negated(a)) == a,
        number::is_nan(number::negated(a)) == number::is_nan(a),
        number::num_lt(a, b) <==> number::num_lt(number::negated(b), number::negated(a)),
{
}

/// A native procedure and the marker of a message equal nothing, and a
/// symbol never equals a string.
pub proof fn law_unequal_values(a: Term, b: Term)
    ensures
        (a is Builtin || a is Message || b is Builtin || b is Message) ==> !a.same(b),
        (a is Sym && b is Text) ==> !a.same(b),
        (a is Text && b is Sym) ==> !a.same(b),
{
}

/// A closure equals whatever the list of its form equals: neither the scope
/// that it captured nor its being a macro counts.
pub proof fn law_closure_equals_its_form(
    is_macro: bool,
    scope: ScopeRef,
    form: Seq<Term>,
    other: Term,
)
    ensures
        Term::Lambda(is_macro, scope, form).same(other) == Term::List(form).same(other),
        other.same(Term::Lambda(is_macro, scope, form)) == other.same(Term::List(form)),
{
}

/// Whether a value can equal anything: it holds, at any depth, no native
/// procedure, no marker of a message and no NaN.
pub open spec fn comparable(t: Term) -> bool
    decreases t,
{
    match t {
        Term::Num(a) => !number::is_nan(a),
        Term::List(l) => forall|i: int| #![trigger l[i]] 0 <= i < l.len() ==> comparable(l[i]),
        Term::Lambda(_, _, l) => forall|i: int|
            #![trigger l[i]]
            0 <= i < l.len() ==> comparable(l[i]),
        Term::Sym(_) => true,
        Term::Text(_) => true,
        _ => false,
    }
}

/// A value equals itself exactly where it holds no native procedure, no
/// marker of a message and no NaN.
pub proof fn law_equality_is_reflexive(a: Term)
    ensures
        a.same(a) == comparable(a),
    decreases a,
{
    match a {
        Term::List(l) => {
            assert forall|i: int| 0 <= i < l.len() implies (#[trigger] l[i]).same(l[i])
                == comparable(l[i]) by {
                law_equality_is_reflexive(l[i]);
            }
        },
        Term::Lambda(_, _, l) => {
            assert forall|i: int| 0 <= i < l.len() implies (#[trigger] l[i]).same(l[i])
                == comparable(l[i]) by {
                law_equality_is_reflexive(l[i]);
            }
        },
        _ => {},
    }
}

/// Equality does not depend on the side a value stands on.
pub proof fn law_equality_is_symmetric(a: Term, b: Term)
    ensures
        a.same(b) == b.same(a),
    decreases a,
{
    match (a.form(), b.form()) {
        (Some(x), Some(y)) => {
            if x.len() == y.len() {
                assert forall|i: int| 0 <= i < x.len() implies (#[trigger] x[i]).same(y[i])
                    == y[i].same(x[i]) by {
                    law_equality_is_symmetric(x[i], y[i]);
                }
                if a.same(b) {
                    assert forall|i: int| #![trigger y[i]] 0 <= i < y.len() implies y[i].same(
                        x[i],
                    ) by {
                        assert(x[i].same(y[i]));
                    }
                }
                if b.same(a) {
                    assert forall|i: int| #![trigger x[i]] 0 <= i < x.len() implies x[i].same(
                        y[i],
                    ) by {
                        assert(y[i].same(x[i]));
                    }
                }
            }
        },
        _ => {},
    }
}

/// Values that equal the same value equal each other.
pub proof fn law_equality_is_transitive(a: Term, b: Term, c: Term)
    requires
        a.same(b),
        b.same(c),
    ensures
        a.same(c),
    decreases a,
{
    match (a.form(), b.form(), c.form()) {
        (Some(x), Some(y), Some(z)) => {
            assert forall|i: int| #![trigger x[i]] 0 <= i < x.len() implies x[i].same(z[i]) by {
                assert(x[i].same(y[i]));
                assert(y[i].same(z[i]));
                law_equality_is_transitive(x[i], y[i], z[i]);
            }
        },
        _ => {},
    }
}

/// An integer of at most 24 bits is a value itself: the number made of it has
/// it as its whole part. So has the next power of 2.
pub proof fn law_integers_are_exact(n: i32)
    requires
        -0x100_0000 <= n <= 0x100_0000,
    ensures
        number::truncated(number::of_int(n)) == n,
{
    if n != 0 {
        let m = if n < 0 {
            -(n as int)
        } else {
            n as int
        };
        number::lemma_pow2_values();
        number::lemma_log2_bounds(m as nat);
        number::lemma_log2_below(m as nat, 25);
        let k = number::log2(m as nat) as int;
        let sig = number::nearest(m).0;
        let e = number::nearest(m).1;
        if k <= 23 {
            let d = number::pow2((23 - k) as nat) as int;
            number::lemma_pow2_step(0, (23 - k) as nat);
            number::lemma_pow2_adds((k + 1) as nat, (23 - k) as nat);
            number::lemma_pow2_adds(k as nat, (23 - k) as nat);
            assert(m * d < 0x100_0000) by (nonlinear_arith)
                requires
                    m < number::pow2((k + 1) as nat),
                    d >= 1,
                    number::pow2((k + 1) as nat) * d == 0x100_0000,
            ;
            assert(m * d >= 0x80_0000) by (nonlinear_arith)
                requires
                    m >= number::pow2(k as nat),
                    d >= 1,
                    number::pow2(k as nat) * d == 0x80_0000,
            ;
            number::lemma_assembled(n < 0, e, sig);
            assert((m * d) / d == m) by (nonlinear_arith)
                requires
                    d >= 1,
            ;
            let bits = number::of_int(n);
            assert(number::exponent(bits) == 127 + k);
            assert(number::significand(bits) == m * d);
            if k == 23 {
                assert(d == 1);
                assert(m * d == m) by (nonlinear_arith)
                    requires
                        d == 1,
                ;
                assert(number::significand(bits) * number::pow2(0) == m) by (nonlinear_arith)
                    requires
                        number::significand(bits) == m,
                        number::pow2(0) == 1,
                ;
                assert(number::whole(bits) == m);
            } else {
                assert(number::whole(bits) == (m * d) / d);
            }
        } else {
            assert(k == 24);
            assert(m == 0x100_0000);
            assert(number::pow2((k - 23) as nat) == 2);
            assert(sig == 0x80_0000 && e == 151);
            number::lemma_assembled(n < 0, e, sig);
            let bits = number::of_int(n);
            assert(number::whole(bits) == 0x80_0000 * number::pow2(1));
        }
    }
}

/// The number made of an integer has the sign of the integer, is no NaN, and
/// is finite.
pub proof fn law_integers_are_finite(n: i32)
    requires
        n != 0,
    ensures
        number::is_negative(number::of_int(n)) == (n < 0),
        !number::is_nan(number::of_int(n)),
        127 <= number::exponent(number::of_int(n)) <= 158,
{
    let m = if n < 0 {
        -(n as int)
    } else {
        n as int
    };
    number::lemma_pow2_values();
    number::lemma_log2_bounds(m as nat);
    if m < 0x8000_0000 {
        number::lemma_log2_below(m as nat, 31);
    } else {
        number::lemma_log2_below(m as nat, 32);
    }
    let k = number::log2(m as nat) as int;
    let sig = number::nearest(m).0;
    let e = number::nearest(m).1;
    if k <= 23 {
        let d = number::pow2((23 - k) as nat) as int;
        number::lemma_pow2_step(0, (23 - k) as nat);
        number::lemma_pow2_adds((k + 1) as nat, (23 - k) as nat);
        number::lemma_pow2_adds(k as nat, (23 - k) as nat);
        assert(m * d < 0x100_0000) by (nonlinear_arith)
            requires
                m < number::pow2((k + 1) as nat),
                d >= 1,
                number::pow2((k + 1) as nat) * d == 0x100_0000,
        ;
        assert(m * d >= 0x80_0000) by (nonlinear_arith)
            requires
                m >= number::pow2(k as nat),
                d >= 1,
                number::pow2(k as nat) * d == 0x80_0000,
        ;
    } else {
        let d = number::pow2((k - 23) as nat) as int;
        number::lemma_pow2_step(0, (k - 23) as nat);
        number::lemma_pow2_adds(23, (k - 23) as nat);
        number::lemma_pow2_adds(24, (k - 23) as nat);
        let q = m / d;
        assert(0x80_0000 <= q < 0x100_0000) by (nonlinear_arith)
            requires
                q == m / d,
                d >= 1,
                m >= 0x80_0000 * d,
                m < 0x100_0000 * d,
        ;
        if k == 31 {
            assert(m == 0x8000_0000);
            assert(d == 0x100);
            assert(q == 0x80_0000 && m % d == 0) by (nonlinear_arith)
                requires
                    m == 0x8000_0000,
                    d == 0x100,
                    q == m / d,
            ;
        }
    }
    number::lemma_assembled(n < 0, e, sig);
}

/// The text of a finite number, with `.0` behind it where it has no decimal
/// point, is read back as the number, as soon as one of its texts of up to 9
/// digits is, as it is or with its last digit counted up.
pub proof fn law_number_reads_back(bits: u32, digits: nat)
    requires
        !number::is_nan(bits),
        !number::is_infinite(bits),
        1 <= digits <= number::DIGITS,
        number::chosen(bits, number::rounded_text(bits, digits), digits) is Some,
    ensures
        crate::val::parsed(number::with_point(number::text(bits))) == Term::Num(bits),
{
    lemma_shortest_reads_back(bits, 1, digits);
}

/// The shortest text from some number of digits on is read back as the
/// number, as soon as a text of as many digits or more is.
proof fn lemma_shortest_reads_back(bits: u32, from: nat, digits: nat)
    requires
        1 <= from <= digits <= number::DIGITS,
        number::chosen(bits, number::rounded_text(bits, digits), digits) is Some,
    ensures
        crate::val::parsed(number::with_point(number::shortest(bits, from))) == Term::Num(bits),
    decreases digits - from,
{
    let rounded = number::rounded_text(bits, from);
    match number::chosen(bits, rounded, from) {
        Some(text) => {
            let full = number::filled(rounded, from);
            assert(text == number::plain_form(rounded) && number::suffices(bits, rounded) || text
                == number::plain_form(number::raised(full)) && number::suffices(
                bits,
                number::raised(full),
            ));
        },
        None => {
            lemma_shortest_reads_back(bits, from + 1, digits);
        },
    }
}

/// While a message waits for the host, a step leaves the machine as it is
/// and returns no result: the call is not applied, and the stack stays as
/// it is until the host answers.
pub proof fn law_step_waits_for_the_answer(m: Machine)
    requires
        m.message_peek() is Some,
    ensures
        m.step_inner() == m,
        m.step() == m,
        m.step_result() is None,
        forall|fuel: nat| #[trigger] m.steps(fuel) == m,
{
    assert forall|fuel: nat| #[trigger] m.steps(fuel) == m by {
        lemma_steps_wait(m, fuel);
    }
}

/// However many steps are taken while a message waits, the machine stays as
/// it is.
proof fn lemma_steps_wait(m: Machine, fuel: nat)
    requires
        m.message_peek() is Some,
    ensures
        m.steps(fuel) == m,
    decreases fuel,
{
    if fuel > 0 {
        lemma_steps_wait(m, (fuel - 1) as nat);
    }
}

/// The numbers among the arguments, in their order.
pub open spec fn numbers(args: Seq<Term>) -> Seq<u32>
    decreases args.len(),
{
    if args.len() == 0 {
        Seq::empty()
    } else {
        match args.last() {
            Term::Num(x) => numbers(args.drop_last()).push(x),
            _ => numbers(args.drop_last()),
        }
    }
}

/// The operation folded over numbers from the left: `((start . a) . b) . c`.
pub open spec fn fold_left(op: Arith, nums: Seq<u32>, start: u32) -> u32
    decreases nums.len(),
{
    if nums.len() == 0 {
        start
    } else {
        op.apply(fold_left(op, nums.drop_last(), start), nums.last())
    }
}

/// What an arithmetic procedure folds is the numbers among its arguments
/// alone, from left to right.
pub proof fn law_fold_is_over_the_numbers(op: Arith, args: Seq<Term>, from: int, n: int, start: u32)
    requires
        0 <= from <= n <= args.len(),
    ensures
        folded(op, args, from, n, start) == fold_left(op, numbers(args.subrange(from, n)), start),
    decreases n - from,
{
    if n > from {
        law_fold_is_over_the_numbers(op, args, from, n - 1, start);
        let part = args.subrange(from, n);
        assert(part.drop_last() =~= args.subrange(from, n - 1));
        assert(part.last() == args[n - 1]);
        match args[n - 1] {
            Term::Num(x) => {
                let nums = numbers(part);
                assert(nums.drop_last() =~= numbers(part.drop_last()));
                assert(nums.last() == x);
            },
            _ => {},
        }
    } else {
        assert(args.subrange(from, n) =~= Seq::<Term>::empty());
    }
}

/// `+` and `*` fold the numbers among all their arguments, from 0 and from
/// 1; `-`, `/` and `%` with more than one argument fold the numbers behind
/// the first into it. What is no number is passed over.
pub proof fn law_arithmetic_folds(m: Machine, args: Seq<Term>)
    ensures
        plus(m, args) == m.return_stackframe(
            Term::Num(fold_left(Arith::Plus, numbers(args), number::ZERO)),
        ),
        mult(m, args) == m.return_stackframe(
            Term::Num(fold_left(Arith::Times, numbers(args), number::ONE)),
        ),
        args.len() > 1 ==> minus(m, args) == m.return_stackframe(
            Term::Num(
                fold_left(
                    Arith::Minus,
                    numbers(args.subrange(1, args.len() as int)),
                    first_number(args),
                ),
            ),
        ),
        args.len() > 1 ==> div(m, args) == m.return_stackframe(
            Term::Num(
                fold_left(
                    Arith::Over,
                    numbers(args.subrange(1, args.len() as int)),
                    first_number(args),
                ),
            ),
        ),
        args.len() > 0 ==> modulo(m, args) == m.return_stackframe(
            Term::Num(
                fold_left(
                    Arith::Modulo,
                    numbers(args.subrange(1, args.len() as int)),
                    first_number(args),
                ),
            ),
        ),
{
    let n = args.len() as int;
    assert(args.subrange(0, n) =~= args);
    law_fold_is_over_the_numbers(Arith::Plus, args, 0, n, number::ZERO);
    law_fold_is_over_the_numbers(Arith::Times, args, 0, n, number::ONE);
    if n > 0 {
        law_fold_is_over_the_numbers(Arith::Minus, args, 1, n, first_number(args));
        law_fold_is_over_the_numbers(Arith::Over, args, 1, n, first_number(args));
        law_fold_is_over_the_numbers(Arith::Modulo, args, 1, n, first_number(args));
    }
}

/// The sum of one number is 0 plus the number.
pub proof fn law_sum_of_one(m: Machine, a: u32)
    ensures
        plus(m, seq![Term::Num(a)]) == m.return_stackframe(
            Term::Num(number::sum(number::ZERO, a)),
        ),
{
    reveal_with_fuel(folded, 2);
}

/// Whether `next` stands in the order behind `prev`: above it for `<`, below
/// it for `>`, not below it for `<=`, not above it for `>=`.
pub open spec fn follows(order: Order, prev: u32, next: u32) -> bool {
    match order {
        Order::Less => number::num_lt(prev, next),
        Order::Greater => number::num_lt(next, prev),
        Order::LessEq => number::num_le(prev, next),
        Order::GreaterEq => number::num_le(next, prev),
    }
}

/// A comparison of numbers of which none is a NaN holds exactly if each
/// number stands in the order behind the one before it: `(< a b c)` exactly
/// if `a < b` and `b < c`, so that equal neighbours fail `<` and `>`. One
/// number alone always passes; no number at all passes `<=` and `>=` and
/// fails `<` and `>`.
pub proof fn law_comparison_of_numbers(order: Order, m: Machine, nums: Seq<u32>)
    requires
        forall|i: int| 0 <= i < nums.len() ==> !number::is_nan(#[trigger] nums[i]),
    ensures
        compared(order, as_terms(nums)) == (if nums.len() == 0 {
            order.holds_of_none()
        } else {
            forall|i: int| 0 <= i < nums.len() - 1 ==> follows(order, #[trigger] nums[i], nums[i + 1])
        }),
        compare(order, m, as_terms(nums)) == m.return_stackframe(
            truth_of(compared(order, as_terms(nums))),
        ),
{
    law_comparison_is_chained(order, m, nums);
    if nums.len() >= 2 {
        lemma_chain(order, nums, 1);
    }
    if nums.len() > 0 {
        assert forall|i: int| 0 <= i < nums.len() - 1 implies (follows(
            order,
            #[trigger] nums[i],
            nums[i + 1],
        ) <==> order.admits(nums[i], nums[i + 1])) by {
            law_strict_order(nums[i], nums[i + 1]);
        }
    }
}

/// Handles that differ from one another and name slots other than the root
/// are fewer than the slots.
pub proof fn lemma_distinct_handles_fit(handles: Seq<ScopeRef>, n: nat)
    requires
        n >= 1,
        forall|k: int| 0 <= k < handles.len() ==> 0 < (#[trigger] handles[k]).0 < n,
        forall|k: int, l: int| 0 <= k < l < handles.len() ==> handles[k] != handles[l],
    ensures
        handles.len() + 1 <= n,
    decreases n,
{
    if n == 1 {
        if handles.len() > 0 {
            assert(0 < handles[0].0 < 1);
        }
    } else if exists|k: int| 0 <= k < handles.len() && (#[trigger] handles[k]).0 == n - 1 {
        let k = choose|k: int| 0 <= k < handles.len() && (#[trigger] handles[k]).0 == n - 1;
        let rest = handles.remove(k);
        assert forall|j: int| 0 <= j < rest.len() implies 0 < (#[trigger] rest[j]).0 < n - 1 by {
            if j < k {
                assert(rest[j] == handles[j]);
                assert(handles[j] != handles[k]);
            } else {
                assert(rest[j] == handles[j + 1]);
                assert(handles[k] != handles[j + 1]);
            }
        }
        assert forall|i: int, j: int| 0 <= i < j < rest.len() implies rest[i] != rest[j] by {
            let a = if i < k {
                i
            } else {
                i + 1
            };
            let b = if j < k {
                j
            } else {
                j + 1
            };
            assert(rest[i] == handles[a] && rest[j] == handles[b]);
        }
        lemma_distinct_handles_fit(rest, (n - 1) as nat);
    } else {
        assert forall|k: int| 0 <= k < handles.len() implies 0 < (#[trigger] handles[k]).0 < n - 1 by {
            assert(handles[k].0 != n - 1);
        }
        lemma_distinct_handles_fit(handles, (n - 1) as nat);
    }
}

/// The free-list is shorter than the arena: the scopes in use are the slots
/// that are not on it, and the root is one of them.
pub proof fn law_free_slots_fit(a: Arena)
    requires
        a.wf_slots(),
    ensures
        a.free.len() + 1 <= a.scopes.len(),
        a.in_use() == a.scopes.len() - a.free.len(),
        a.in_use() >= 1,
{
    assert forall|k: int| 0 <= k < a.free.len() implies 0 < (#[trigger] a.free[k]).0
        < a.scopes.len() by {
        assert(a.is_free(a.free[k]));
    }
    lemma_distinct_handles_fit(a.free, a.scopes.len());
}

/// A new scope takes one more scope into use, whether its slot is new or was
/// free.
pub proof fn law_new_child_uses_one_more(a: Arena, parent: ScopeRef)
    requires
        a.wf(),
        a.has_room(),
    ensures
        a.new_child(parent).in_use() == a.in_use() + 1,
{
    law_free_slots_fit(a);
    crate::variables::lemma_new_child(a, parent);
    law_free_slots_fit(a.new_child(parent));
    if a.free.len() > 0 {
        assert(a.is_free(a.free[a.free.len() - 1]));
    }
}

/// Removing listed scopes takes none off the free-list.
proof fn lemma_remove_all_keeps_the_free(a: Arena, list: Seq<ScopeRef>, n: nat)
    ensures
        a.remove_all(list, n).free.len() >= a.free.len(),
    decreases n,
{
    if n > 0 {
        lemma_remove_all_keeps_the_free(a, list, (n - 1) as nat);
    }
}

/// Removing a scope in use gives at least its own slot back: fewer scopes
/// are in use afterwards.
pub proof fn law_remove_gives_back(a: Arena, scope: ScopeRef)
    requires
        a.wf(),
    ensures
        a.remove(scope).in_use() <= a.in_use(),
        scope != Arena::root() && a.live(scope) ==> a.remove(scope).in_use() < a.in_use(),
{
    law_free_slots_fit(a);
    crate::variables::lemma_remove(a, scope);
    law_free_slots_fit(a.remove(scope));
    let below = a.descendants(scope, a.scopes.len());
    lemma_remove_all_keeps_the_free(a.remove_inner(scope), below, below.len());
}

/// Giving a scope up never takes a scope into use.
pub proof fn lemma_release_gives_back(m: Machine, scope: ScopeRef)
    requires
        m.vars.wf(),
    ensures
        m.release(scope).vars.wf(),
        m.release(scope).vars.in_use() <= m.vars.in_use(),
    decreases m.vars.depth_of(scope),
{
    if scope != Arena::root() && m.vars.holds(scope) && !m.references(scope) {
        law_remove_gives_back(m.vars, scope);
        crate::variables::lemma_remove(m.vars, scope);
        let freed = Machine { vars: m.vars.remove(scope), ..m };
        let parent = m.vars.parent(scope);
        if freed.vars.depth_of(parent) < m.vars.depth_of(scope) {
            lemma_release_gives_back(freed, parent);
        }
    }
}

/// A scope in use that nothing references is given back when it is given
/// up: fewer scopes are in use afterwards, so that the scope of a call costs
/// nothing once the call has ended.
pub proof fn law_release_gives_the_scope_back(m: Machine, scope: ScopeRef)
    requires
        m.vars.wf(),
        scope != Arena::root(),
        m.vars.live(scope),
        !m.references(scope),
    ensures
        m.release(scope).vars.in_use() < m.vars.in_use(),
{
    law_remove_gives_back(m.vars, scope);
    crate::variables::lemma_remove(m.vars, scope);
    let freed = Machine { vars: m.vars.remove(scope), ..m };
    let parent = m.vars.parent(scope);
    if freed.vars.depth_of(parent) < m.vars.depth_of(scope) {
        lemma_release_gives_back(freed, parent);
    }
}

/// A frame that is pushed and ends at once, with a value and in a state
/// that do not reference its scope, leaves as many scopes in use as there
/// were before it.
pub proof fn law_frame_costs_nothing(m: Machine, list: Seq<Term>, val: Term)
    requires
        m.vars.wf(),
        m.vars.has_room(),
        m.add_stackframe(list).return_stackframe(val).vars.is_free(m.vars.next()),
    ensures
        m.add_stackframe(list).return_stackframe(val).vars.in_use() <= m.vars.in_use(),
{
    let pushed = m.add_stackframe(list);
    let scope = m.vars.next();
    crate::variables::lemma_new_child(m.vars, m.get_var_ref());
    law_new_child_uses_one_more(m.vars, m.get_var_ref());
    let rest = pushed.stack.drop_last();
    let popped = if rest.len() == 0 {
        Machine { stack: rest, result: val, ..pushed }
    } else {
        Machine { stack: Machine::deliver(rest, val), ..pushed }
    };
    assert(pushed.stack.last().vars == scope);
    assert(pushed.return_stackframe(val) == popped.release(scope));
    if m.vars.free.len() > 0 {
        assert(m.vars.is_free(m.vars.free[m.vars.free.len() - 1]));
    }
    assert(popped.vars.live(scope));
    if popped.references(scope) {
        assert(popped.release(scope) == popped);
    } else {
        law_release_gives_the_scope_back(popped, scope);
    }
}

/// A closure is printed as the list of its form, whatever scope it captured
/// and whether or not it is a macro: so the reader, where it reads the
/// printed list back as an equal list, reads the printed closure back as a
/// value equal to the closure.
pub proof fn law_closure_prints_as_its_form(
    is_macro: bool,
    scope: ScopeRef,
    form: Seq<Term>,
    read: Term,
)
    ensures
        Term::Lambda(is_macro, scope, form).text() == Term::List(form).text(),
        read.same(Term::List(form)) ==> read.same(Term::Lambda(is_macro, scope, form)),
{
    law_closure_equals_its_form(is_macro, scope, form, read);
}

/// Giving a scope up leaves every scope as it is in which a frame of the
/// stack works.
pub proof fn lemma_release_keeps_active_scope(m: Machine, scope: ScopeRef, i: int)
    requires
        m.vars.wf(),
        0 <= i < m.stack.len(),
        m.vars.holds(m.stack[i].vars),
    ensures
        m.release(scope).vars.wf(),
        m.release(scope).vars.scopes.len() == m.vars.scopes.len(),
        m.release(scope).vars.scopes[m.stack[i].vars.0 as int] == m.vars.scopes[m.stack[i].vars.0 as int],
    decreases m.vars.depth_of(scope),
{
    if scope != Arena::root() && m.vars.holds(scope) && !m.references(scope) {
        let active = m.stack[i].vars;
        assert(!m.stack[i].references(m.vars, scope));
        assert(!m.vars.removes(scope, active));
        crate::variables::lemma_remove(m.vars, scope);
        let freed = Machine { vars: m.vars.remove(scope), ..m };
        assert(freed.vars.scopes[active.0 as int] == m.vars.scopes[active.0 as int]);
        let parent = m.vars.parent(scope);
        if freed.vars.depth_of(parent) < m.vars.depth_of(scope) {
            lemma_release_keeps_active_scope(freed, parent, i);
        }
    }
}

/// Whether `b` is `a` but for the bindings of `scope`: the free-list and
/// every other slot are as in `a`, and `scope` has the parent that it has in
/// `a` and is in use in both or in neither.
pub open spec fn binds_only_in(a: Arena, b: Arena, scope: ScopeRef) -> bool {
    &&& b.scopes.len() == a.scopes.len()
    &&& b.free == a.free
    &&& forall|i: int|
        0 <= i < a.scopes.len() ==> (#[trigger] b.scopes[i]).parent == a.scopes[i].parent
            && b.scopes[i].free == a.scopes[i].free && (i != scope.0 ==> b.scopes[i]
            == a.scopes[i])
}

/// Binding the parameters of a closure keeps the forest, and changes the
/// bindings of the one scope only.
pub proof fn lemma_bind_keeps_the_forest(
    a: Arena,
    scope: ScopeRef,
    pattern: Term,
    params: Seq<Term>,
)
    requires
        a.wf(),
    ensures
        Machine::bind(a, scope, pattern, params).wf(),
        binds_only_in(a, Machine::bind(a, scope, pattern, params), scope),
{
    match pattern {
        Term::List(names) => {
            lemma_bind_names_keep_the_forest(a, scope, names, params, names.len());
        },
        Term::Sym(name) => {
            crate::variables::lemma_set(a, scope, name, Term::List(params));
        },
        _ => {},
    }
}

/// Binding names one by one keeps the forest, and changes the bindings of
/// the one scope only.
proof fn lemma_bind_names_keep_the_forest(
    a: Arena,
    scope: ScopeRef,
    names: Seq<Term>,
    params: Seq<Term>,
    n: nat,
)
    requires
        a.wf(),
        n <= names.len(),
    ensures
        Machine::bind_names(a, scope, names, params, n).wf(),
        binds_only_in(a, Machine::bind_names(a, scope, names, params, n), scope),
    decreases n,
{
    if n > 0 {
        lemma_bind_names_keep_the_forest(a, scope, names, params, (n - 1) as nat);
        let before = Machine::bind_names(a, scope, names, params, (n - 1) as nat);
        match names[n - 1] {
            Term::Sym(name) => if n - 1 < params.len() {
                crate::variables::lemma_set(before, scope, name, params[n - 1]);
                let after = before.set(scope, name, params[n - 1]);
                assert forall|i: int| 0 <= i < a.scopes.len() implies (#[trigger] after.scopes[i]).parent
                    == a.scopes[i].parent && after.scopes[i].free == a.scopes[i].free && (i
                    != scope.0 ==> after.scopes[i] == a.scopes[i]) by {
                    assert(before.scopes[i].parent == a.scopes[i].parent);
                }
            },
            _ => {},
        }
    }
}

/// A call in tail position takes no frame: when the head of the active
/// frame is a closure whose body is a form, and the scope that the closure
/// captured is in use, then applying the frame leaves the stack as deep as
/// it was and every frame below as it was; the active frame starts over on
/// the body of the closure, in a new scope that hangs below the captured one
/// and holds the parameters bound to the arguments, and nothing else.
pub proof fn law_tail_call_takes_no_frame(
    m: Machine,
    captured: ScopeRef,
    params: Term,
    body: Seq<Term>,
)
    requires
        m.vars.wf(),
        m.vars.has_room(),
        m.stack.len() > 0,
        m.stack.last().accum.len() > 0,
        m.stack.last().accum[0] == Term::Lambda(
            false,
            captured,
            seq![Term::Sym("lambda"@), params, Term::List(body)],
        ),
        m.vars.live(captured),
    ensures
        m.call().stack.len() == m.stack.len(),
        m.call().stack.last() == Frame::fresh(m.vars.next(), body),
        forall|i: int| 0 <= i < m.stack.len() - 1 ==> #[trigger] m.call().stack[i] == m.stack[i],
        m.call().back_stack == m.back_stack,
        m.call().result == m.result,
        m.call().events == m.events,
        m.call().vars.live(m.vars.next()),
        m.call().vars.parent(m.vars.next()) == captured,
        m.call().vars.scopes[m.vars.next().0 as int].vars == Machine::bind(
            m.vars.new_child(captured),
            m.vars.next(),
            params,
            m.stack.last().accum.subrange(1, m.stack.last().accum.len() as int),
        ).scopes[m.vars.next().0 as int].vars,
{
    let frame = m.stack.last();
    let scope = m.vars.next();
    let tail = frame.accum.subrange(1, frame.accum.len() as int);
    let list = seq![Term::Sym("lambda"@), params, Term::List(body)];
    assert(frame.accum[0].form() == Some(list));
    assert(list.len() == 3 && list[0] == Term::Sym("lambda"@) && list[1] == params && list[2]
        == Term::List(body));
    let b0 = m.vars.new_child(captured);
    crate::variables::lemma_new_child(m.vars, captured);
    if m.vars.free.len() > 0 {
        assert(m.vars.is_free(m.vars.free[m.vars.free.len() - 1]));
    }
    assert(b0.holds(scope) && b0.live(scope) && b0.parent(scope) == captured);
    let b1 = Machine::bind(b0, scope, params, Machine::params(frame.accum[0], frame.vars, tail));
    assert(Machine::params(frame.accum[0], frame.vars, tail) == tail);
    lemma_bind_keeps_the_forest(b0, scope, params, tail);
    assert(b1.scopes[scope.0 as int].parent == b0.scopes[scope.0 as int].parent);
    assert(b1.parent(scope) == b0.parent(scope) && b1.live(scope) == b0.live(scope));
    let bound = Machine { vars: b1, ..m };
    let entered = bound.enter(scope, body);
    assert(m.call() == m.call_closure());
    assert(m.call_closure() == bound.run_body(scope, list));
    assert(bound.run_body(scope, list) == entered.release(frame.vars));
    let top = m.stack.len() - 1;
    assert(entered.stack[top] == Frame::fresh(scope, body));
    lemma_release_keeps_active_scope(entered, frame.vars, top);
    assert forall|i: int| 0 <= i < m.stack.len() - 1 implies #[trigger] m.call().stack[i]
        == m.stack[i] by {
        assert(entered.stack[i] == m.stack[i]);
    }
}

/// A call in tail position costs no scope: when the scope that the active
/// frame worked in is free after the call, as it is where nothing else
/// references it, no more scopes are in use than before the call.
pub proof fn law_tail_call_costs_no_scope(
    m: Machine,
    captured: ScopeRef,
    params: Term,
    body: Seq<Term>,
)
    requires
        m.vars.wf(),
        m.vars.has_room(),
        m.stack.len() > 0,
        m.stack.last().accum.len() > 0,
        m.stack.last().accum[0] == Term::Lambda(
            false,
            captured,
            seq![Term::Sym("lambda"@), params, Term::List(body)],
        ),
        m.vars.live(m.stack.last().vars),
        m.call().vars.is_free(m.stack.last().vars),
    ensures
        m.call().vars.in_use() <= m.vars.in_use(),
{
    let frame = m.stack.last();
    let scope = m.vars.next();
    let tail = frame.accum.subrange(1, frame.accum.len() as int);
    let list = seq![Term::Sym("lambda"@), params, Term::List(body)];
    assert(frame.accum[0].form() == Some(list));
    assert(list.len() == 3 && list[0] == Term::Sym("lambda"@) && list[1] == params && list[2]
        == Term::List(body));
    let b0 = m.vars.new_child(captured);
    crate::variables::lemma_new_child(m.vars, captured);
    law_new_child_uses_one_more(m.vars, captured);
    if m.vars.free.len() > 0 {
        assert(m.vars.is_free(m.vars.free[m.vars.free.len() - 1]));
    }
    assert(scope != frame.vars);
    assert(b0.live(frame.vars));
    assert(Machine::params(frame.accum[0], frame.vars, tail) == tail);
    let b1 = Machine::bind(b0, scope, params, tail);
    lemma_bind_keeps_the_forest(b0, scope, params, tail);
    assert(b1.scopes[frame.vars.0 as int].free == b0.scopes[frame.vars.0 as int].free);
    assert(b1.live(frame.vars));
    assert(b1.in_use() == b0.in_use());
    let bound = Machine { vars: b1, ..m };
    let entered = bound.enter(scope, body);
    assert(m.call() == m.call_closure());
    assert(m.call_closure() == bound.run_body(scope, list));
    assert(bound.run_body(scope, list) == entered.release(frame.vars));
    if frame.vars != Arena::root() && !entered.references(frame.vars) {
        law_release_gives_the_scope_back(entered, frame.vars);
    }
}

} // verus!
