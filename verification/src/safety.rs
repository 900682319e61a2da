//! No handle outlives its scope: as long as the host hands over values
//! whose closures captured scopes in use, every frame works in a scope in
//! use and every closure that the machine holds captured one, whatever the
//! program does and whichever scopes are given up on the way.

use crate::builtins;
use crate::exec::{stack_references, Frame, Machine};
use crate::val::{parsed, Native, Reading, Tree};
use crate::val::Term;
use crate::variables::{
    bound, find, lemma_find, lemma_new_child, lemma_remove, lemma_set, put, Arena, ScopeModel, ScopeRef,
};
use vstd::prelude::*;

verus! {

/// Whether every closure in the value, at any depth, captured a scope in
/// use.
pub open spec fn val_tidy(a: Arena, val: Term) -> bool
    decreases val,
{
    match val {
        Term::Lambda(_, captured, l) => a.live(captured) && vals_tidy(a, l),
        Term::List(l) => vals_tidy(a, l),
        _ => true,
    }
}

/// Whether every closure in the values captured a scope in use.
pub open spec fn vals_tidy(a: Arena, vals: Seq<Term>) -> bool
    decreases vals,
{
    vals.len() == 0 || (val_tidy(a, vals.last()) && vals_tidy(a, vals.drop_last()))
}

/// Whether the frame works in a scope in use and holds no closure that
/// captured anything else.
pub open spec fn frame_tidy(a: Arena, frame: Frame) -> bool {
    a.live(frame.vars) && vals_tidy(a, frame.accum) && vals_tidy(a, frame.init)
}

/// Whether every frame of the stack is tidy.
pub open spec fn stack_tidy(a: Arena, stack: Seq<Frame>) -> bool {
    forall|i: int| 0 <= i < stack.len() ==> frame_tidy(a, #[trigger] stack[i])
}

/// Whether every value that is bound in the arena is tidy.
pub open spec fn binds_tidy(a: Arena) -> bool {
    forall|s: ScopeRef, j: int|
        a.holds(s) && 0 <= j < a.scopes[s.0 as int].vars.len() ==> val_tidy(
            a,
            (#[trigger] a.scopes[s.0 as int].vars[j]).1,
        )
}

/// Whether the machine holds no handle on a free slot: the scopes form a
/// forest, every frame of the stack and of the parked stacks works in a
/// scope in use, and every closure in a frame, in the result, in an event or
/// in a binding captured a scope in use.
pub open spec fn tidy(m: Machine) -> bool {
    &&& m.vars.wf()
    &&& stack_tidy(m.vars, m.stack)
    &&& forall|k: int| 0 <= k < m.back_stack.len() ==> stack_tidy(m.vars, #[trigger] m.back_stack[k])
    &&& val_tidy(m.vars, m.result)
    &&& vals_tidy(m.vars, m.events)
    &&& binds_tidy(m.vars)
}

/// Values are tidy together exactly if each of them is.
pub proof fn lemma_vals_tidy(a: Arena, vals: Seq<Term>)
    ensures
        vals_tidy(a, vals) <==> forall|i: int| 0 <= i < vals.len() ==> val_tidy(a, #[trigger] vals[i]),
    decreases vals.len(),
{
    if vals.len() > 0 {
        let front = vals.drop_last();
        lemma_vals_tidy(a, front);
        if vals_tidy(a, vals) {
            assert forall|i: int| 0 <= i < vals.len() implies val_tidy(a, #[trigger] vals[i]) by {
                if i < front.len() {
                    assert(front[i] == vals[i]);
                }
            }
        }
        if forall|i: int| 0 <= i < vals.len() ==> val_tidy(a, #[trigger] vals[i]) {
            assert forall|i: int| 0 <= i < front.len() implies val_tidy(a, #[trigger] front[i]) by {
                assert(front[i] == vals[i]);
            }
            assert(val_tidy(a, vals[vals.len() - 1]));
        }
    }
}

/// Whether every scope that is in use in `a` is in use in `b`.
pub open spec fn keeps_live(a: Arena, b: Arena) -> bool {
    forall|s: ScopeRef| a.live(s) ==> #[trigger] b.live(s)
}

/// A value stays tidy when no scope goes out of use.
pub proof fn lemma_val_stays_tidy(a: Arena, b: Arena, val: Term)
    requires
        keeps_live(a, b),
        val_tidy(a, val),
    ensures
        val_tidy(b, val),
    decreases val,
{
    match val {
        Term::Lambda(_, captured, l) => {
            assert(b.live(captured));
            lemma_vals_stay_tidy(a, b, l);
        },
        Term::List(l) => {
            lemma_vals_stay_tidy(a, b, l);
        },
        _ => {},
    }
}

/// Values stay tidy when no scope goes out of use.
pub proof fn lemma_vals_stay_tidy(a: Arena, b: Arena, vals: Seq<Term>)
    requires
        keeps_live(a, b),
        vals_tidy(a, vals),
    ensures
        vals_tidy(b, vals),
    decreases vals,
{
    if vals.len() > 0 {
        lemma_val_stays_tidy(a, b, vals.last());
        lemma_vals_stay_tidy(a, b, vals.drop_last());
    }
}

/// A value stays tidy when a scope is removed that no closure in it
/// captured, itself or a scope below it.
pub proof fn lemma_val_survives(a: Arena, scope: ScopeRef, val: Term)
    requires
        a.wf(),
        val_tidy(a, val),
        !a.val_has_ancestor(scope, val),
    ensures
        val_tidy(a.remove(scope), val),
    decreases val,
{
    lemma_remove(a, scope);
    let b = a.remove(scope);
    match val {
        Term::Lambda(_, captured, l) => {
            assert(!a.removes(scope, captured));
            assert(b.scopes[captured.0 as int] == a.scopes[captured.0 as int]);
            lemma_vals_survive(a, scope, l);
        },
        Term::List(l) => {
            lemma_vals_survive(a, scope, l);
        },
        _ => {},
    }
}

/// Values stay tidy when a scope is removed that no closure in them
/// captured, itself or a scope below it.
pub proof fn lemma_vals_survive(a: Arena, scope: ScopeRef, vals: Seq<Term>)
    requires
        a.wf(),
        vals_tidy(a, vals),
        !a.vals_have_ancestor(scope, vals),
    ensures
        vals_tidy(a.remove(scope), vals),
    decreases vals,
{
    if vals.len() > 0 {
        lemma_val_survives(a, scope, vals.last());
        lemma_vals_survive(a, scope, vals.drop_last());
    }
}

/// A stack stays tidy when a scope is removed that it does not reference.
pub proof fn lemma_stack_survives(a: Arena, scope: ScopeRef, stack: Seq<Frame>)
    requires
        a.wf(),
        stack_tidy(a, stack),
        !stack_references(stack, a, scope),
    ensures
        stack_tidy(a.remove(scope), stack),
{
    lemma_remove(a, scope);
    let b = a.remove(scope);
    assert forall|i: int| 0 <= i < stack.len() implies frame_tidy(b, #[trigger] stack[i]) by {
        let f = stack[i];
        assert(frame_tidy(a, f));
        assert(!f.references(a, scope));
        assert(!a.removes(scope, f.vars));
        assert(b.scopes[f.vars.0 as int] == a.scopes[f.vars.0 as int]);
        lemma_vals_survive(a, scope, f.accum);
        lemma_vals_survive(a, scope, f.init);
    }
}

/// A machine stays tidy when it removes a scope that it does not reference.
pub proof fn lemma_removal_keeps_tidy(m: Machine, scope: ScopeRef)
    requires
        tidy(m),
        scope != Arena::root(),
        !m.references(scope),
    ensures
        tidy(Machine { vars: m.vars.remove(scope), ..m }),
{
    let a = m.vars;
    let b = a.remove(scope);
    lemma_remove(a, scope);
    lemma_stack_survives(a, scope, m.stack);
    assert forall|k: int| 0 <= k < m.back_stack.len() implies stack_tidy(
        b,
        #[trigger] m.back_stack[k],
    ) by {
        lemma_stack_survives(a, scope, m.back_stack[k]);
    }
    lemma_val_survives(a, scope, m.result);
    lemma_vals_survive(a, scope, m.events);
    assert forall|s: ScopeRef, j: int|
        b.holds(s) && 0 <= j < b.scopes[s.0 as int].vars.len() implies val_tidy(
        b,
        (#[trigger] b.scopes[s.0 as int].vars[j]).1,
    ) by {
        assert(a.holds(s));
        assert(b.scopes[s.0 as int] == (if a.removes(scope, s) {
            ScopeModel::freed()
        } else {
            a.scopes[s.0 as int]
        }));
        if !a.removes(scope, s) {
            let v = a.scopes[s.0 as int].vars[j].1;
            assert(val_tidy(a, v));
            if a.scopes[s.0 as int].free {
                assert(a.scopes[s.0 as int] == ScopeModel::freed());
            } else {
                assert(!a.scope_has_ancestor(s, scope));
                assert(ScopeRef(s.0 as int as usize) == s);
                assert(!a.val_has_ancestor(scope, a.scopes[s.0 as int].vars[j].1));
                lemma_val_survives(a, scope, v);
            }
        }
    }
}

/// Giving a scope up keeps the machine tidy.
pub proof fn law_release_keeps_tidy(m: Machine, scope: ScopeRef)
    requires
        tidy(m),
    ensures
        tidy(m.release(scope)),
    decreases m.vars.depth_of(scope),
{
    if scope != Arena::root() && m.vars.holds(scope) && !m.references(scope) {
        lemma_removal_keeps_tidy(m, scope);
        let freed = Machine { vars: m.vars.remove(scope), ..m };
        let parent = m.vars.parent(scope);
        if freed.vars.depth_of(parent) < m.vars.depth_of(scope) {
            law_release_keeps_tidy(freed, parent);
        }
    }
}

/// A machine whose arena changes stays tidy when no scope goes out of use
/// and the bindings are tidy afterwards.
pub proof fn lemma_arena_change_keeps_tidy(m: Machine, b: Arena)
    requires
        tidy(m),
        b.wf(),
        keeps_live(m.vars, b),
        binds_tidy(b),
    ensures
        tidy(Machine { vars: b, ..m }),
{
    let a = m.vars;
    assert forall|i: int| 0 <= i < m.stack.len() implies frame_tidy(b, #[trigger] m.stack[i]) by {
        let f = m.stack[i];
        assert(frame_tidy(a, f));
        assert(b.live(f.vars));
        lemma_vals_stay_tidy(a, b, f.accum);
        lemma_vals_stay_tidy(a, b, f.init);
    }
    assert forall|k: int| 0 <= k < m.back_stack.len() implies stack_tidy(
        b,
        #[trigger] m.back_stack[k],
    ) by {
        let stack = m.back_stack[k];
        assert(stack_tidy(a, stack));
        assert forall|i: int| 0 <= i < stack.len() implies frame_tidy(b, #[trigger] stack[i]) by {
            let f = stack[i];
            assert(frame_tidy(a, f));
            assert(b.live(f.vars));
            lemma_vals_stay_tidy(a, b, f.accum);
            lemma_vals_stay_tidy(a, b, f.init);
        }
    }
    lemma_val_stays_tidy(a, b, m.result);
    lemma_vals_stay_tidy(a, b, m.events);
}

/// A new scope takes no scope out of use, is in use itself, and leaves the
/// bindings tidy.
pub proof fn lemma_new_child_is_tidy(a: Arena, parent: ScopeRef)
    requires
        a.wf(),
        a.has_room(),
        binds_tidy(a),
    ensures
        a.new_child(parent).wf(),
        keeps_live(a, a.new_child(parent)),
        a.new_child(parent).live(a.next()),
        binds_tidy(a.new_child(parent)),
{
    let b = a.new_child(parent);
    let slot = a.next();
    lemma_new_child(a, parent);
    if a.free.len() > 0 {
        assert(a.is_free(a.free[a.free.len() - 1]));
    }
    assert forall|s: ScopeRef| a.live(s) implies #[trigger] b.live(s) by {
        assert(s != slot);
        assert(b.scopes[s.0 as int] == a.scopes[s.0 as int]);
    }
    assert forall|s: ScopeRef, j: int|
        b.holds(s) && 0 <= j < b.scopes[s.0 as int].vars.len() implies val_tidy(
        b,
        (#[trigger] b.scopes[s.0 as int].vars[j]).1,
    ) by {
        assert(s != slot);
        assert(b.scopes[s.0 as int] == a.scopes[s.0 as int]);
        lemma_val_stays_tidy(a, b, a.scopes[s.0 as int].vars[j].1);
    }
}

/// A binding of a tidy value takes no scope out of use and leaves the
/// bindings tidy.
pub proof fn lemma_set_is_tidy(a: Arena, scope: ScopeRef, name: Seq<char>, val: Term)
    requires
        a.wf(),
        binds_tidy(a),
        val_tidy(a, val),
    ensures
        a.set(scope, name, val).wf(),
        keeps_live(a, a.set(scope, name, val)),
        keeps_live(a.set(scope, name, val), a),
        binds_tidy(a.set(scope, name, val)),
{
    let b = a.set(scope, name, val);
    lemma_set(a, scope, name, val);
    if a.live(scope) {
        let before = a.scopes[scope.0 as int].vars;
        let after = put(before, name, val);
        lemma_find(before, name, before.len());
        assert forall|s: ScopeRef| a.live(s) <==> #[trigger] b.live(s) by {
            if s != scope && a.holds(s) {
                assert(b.scopes[s.0 as int] == a.scopes[s.0 as int]);
            }
        }
        assert forall|s: ScopeRef, j: int|
            b.holds(s) && 0 <= j < b.scopes[s.0 as int].vars.len() implies val_tidy(
            b,
            (#[trigger] b.scopes[s.0 as int].vars[j]).1,
        ) by {
            if s == scope {
                let v = after[j].1;
                if v != val {
                    assert(after[j] == before[j]);
                    assert(val_tidy(a, a.scopes[s.0 as int].vars[j].1));
                }
                lemma_val_stays_tidy(a, b, v);
            } else {
                assert(b.scopes[s.0 as int] == a.scopes[s.0 as int]);
                lemma_val_stays_tidy(a, b, a.scopes[s.0 as int].vars[j].1);
            }
        }
    }
}

/// A value that a lookup finds in a tidy arena is tidy.
pub proof fn lemma_found_is_tidy(a: Arena, scope: ScopeRef, name: Seq<char>)
    requires
        binds_tidy(a),
        a.get(scope, name) is Some,
    ensures
        val_tidy(a, a.get(scope, name)->0),
    decreases a.depth_of(scope),
{
    let vars = a.scopes[scope.0 as int].vars;
    lemma_find(vars, name, vars.len());
    match bound(vars, name) {
        Some(v) => {
            let i = find(vars, name, vars.len())->0;
            assert(val_tidy(a, a.scopes[scope.0 as int].vars[i].1));
        },
        None => {
            lemma_found_is_tidy(a, a.parent(scope), name);
        },
    }
}

/// In a forest the parent of a scope in use is in use.
pub proof fn lemma_parent_is_live(a: Arena, scope: ScopeRef)
    requires
        a.wf(),
        a.live(scope),
    ensures
        a.live(a.parent(scope)),
{
    if scope != Arena::root() {
        assert(a.depth[scope.0 as int] == a.depth[a.scopes[scope.0 as int].parent.0 as int] + 1);
    }
}

/// The scope that the machine works in is in use.
pub proof fn lemma_active_scope_is_live(m: Machine)
    requires
        tidy(m),
    ensures
        m.vars.live(m.get_var_ref()),
        m.vars.live(m.definer()),
{
    if m.stack.len() > 0 {
        assert(frame_tidy(m.vars, m.stack[m.stack.len() - 1]));
    }
    lemma_parent_is_live(m.vars, m.get_var_ref());
    lemma_parent_is_live(m.vars, m.vars.parent(m.get_var_ref()));
}

/// A new frame for tidy values keeps the machine tidy.
pub proof fn law_add_stackframe_keeps_tidy(m: Machine, list: Seq<Term>)
    requires
        tidy(m),
        m.vars.has_room(),
        vals_tidy(m.vars, list),
    ensures
        tidy(m.add_stackframe(list)),
{
    let a = m.vars;
    let b = a.new_child(m.get_var_ref());
    lemma_new_child_is_tidy(a, m.get_var_ref());
    lemma_arena_change_keeps_tidy(m, b);
    lemma_vals_stay_tidy(a, b, list);
    let after = m.add_stackframe(list);
    assert forall|i: int| 0 <= i < after.stack.len() implies frame_tidy(
        b,
        #[trigger] after.stack[i],
    ) by {
        if i < m.stack.len() {
            assert(after.stack[i] == m.stack[i]);
            assert(frame_tidy(b, (Machine { vars: b, ..m }).stack[i]));
        } else {
            assert(after.stack[i] == Frame::fresh(a.next(), list));
        }
    }
    let moved = Machine { vars: b, ..m };
    assert(tidy(moved));
    assert(after.vars == b);
    assert(after.back_stack == moved.back_stack);
    assert(after.result == moved.result);
    assert(after.events == moved.events);
    assert(stack_tidy(b, after.stack));
    assert(forall|k: int| 0 <= k < after.back_stack.len() ==> stack_tidy(b, #[trigger] after.back_stack[k]));
    assert(val_tidy(b, after.result));
    assert(vals_tidy(b, after.events));
    assert(binds_tidy(b));
    assert(b.wf());
}

/// A stack stays tidy when a tidy value is written at the cursor of its
/// active frame.
pub proof fn lemma_deliver_keeps_tidy(a: Arena, stack: Seq<Frame>, val: Term)
    requires
        stack_tidy(a, stack),
        val_tidy(a, val),
        stack.len() > 0,
    ensures
        stack_tidy(a, Machine::deliver(stack, val)),
{
    let after = Machine::deliver(stack, val);
    let frame = stack.last();
    assert(frame_tidy(a, stack[stack.len() - 1]));
    if 0 <= frame.pc < frame.accum.len() {
        let accum = frame.accum.update(frame.pc, val);
        lemma_vals_tidy(a, frame.accum);
        lemma_vals_tidy(a, accum);
        assert forall|i: int| 0 <= i < accum.len() implies val_tidy(a, #[trigger] accum[i]) by {
            if i != frame.pc {
                assert(accum[i] == frame.accum[i]);
            }
        }
        assert forall|i: int| 0 <= i < after.len() implies frame_tidy(a, #[trigger] after[i]) by {
            if i < stack.len() - 1 {
                assert(after[i] == stack[i]);
            }
        }
    }
}

/// The end of a frame with a tidy value keeps the machine tidy.
pub proof fn law_return_keeps_tidy(m: Machine, val: Term)
    requires
        tidy(m),
        val_tidy(m.vars, val),
    ensures
        tidy(m.return_stackframe(val)),
{
    if m.stack.len() > 0 {
        let rest = m.stack.drop_last();
        assert forall|i: int| 0 <= i < rest.len() implies frame_tidy(m.vars, #[trigger] rest[i]) by {
            assert(rest[i] == m.stack[i]);
        }
        let popped = if rest.len() == 0 {
            Machine { stack: rest, result: val, ..m }
        } else {
            Machine { stack: Machine::deliver(rest, val), ..m }
        };
        if rest.len() > 0 {
            lemma_deliver_keeps_tidy(m.vars, rest, val);
        }
        assert(tidy(popped));
        law_release_keeps_tidy(popped, m.stack.last().vars);
    }
}

/// A frame that starts over on tidy values, in a scope in use, keeps the
/// machine tidy.
pub proof fn law_enter_keeps_tidy(m: Machine, scope: ScopeRef, list: Seq<Term>)
    requires
        tidy(m),
        m.vars.live(scope),
        vals_tidy(m.vars, list),
    ensures
        tidy(m.enter(scope, list)),
{
    let after = m.enter(scope, list);
    assert forall|i: int| 0 <= i < after.stack.len() implies frame_tidy(
        m.vars,
        #[trigger] after.stack[i],
    ) by {
        if i < m.stack.len() - 1 {
            assert(after.stack[i] == m.stack[i]);
        }
    }
}

/// A frame that starts over on tidy values keeps the machine tidy.
pub proof fn law_replace_keeps_tidy(m: Machine, list: Seq<Term>)
    requires
        tidy(m),
        vals_tidy(m.vars, list),
    ensures
        tidy(m.replace_stackframe(list)),
{
    if m.stack.len() > 0 {
        assert(frame_tidy(m.vars, m.stack[m.stack.len() - 1]));
        law_enter_keeps_tidy(m, m.stack.last().vars, list);
        assert(m.replace_stackframe(list) == m.enter(m.stack.last().vars, list));
    }
}

/// Moving the cursor keeps the machine tidy.
pub proof fn law_set_pc_keeps_tidy(m: Machine, pc: int)
    requires
        tidy(m),
    ensures
        tidy(m.set_pc(pc)),
{
    let after = m.set_pc(pc);
    assert forall|i: int| 0 <= i < after.stack.len() implies frame_tidy(
        m.vars,
        #[trigger] after.stack[i],
    ) by {
        assert(frame_tidy(m.vars, m.stack[i]));
    }
}

/// A tidy event keeps the machine tidy.
pub proof fn law_send_event_keeps_tidy(m: Machine, event: Term)
    requires
        tidy(m),
        val_tidy(m.vars, event),
    ensures
        tidy(m.send_event(event)),
{
    assert(m.events.push(event).drop_last() =~= m.events);
}

/// A definition of a tidy value keeps the machine tidy.
pub proof fn law_set_var_keeps_tidy(m: Machine, name: Seq<char>, val: Term)
    requires
        tidy(m),
        val_tidy(m.vars, val),
    ensures
        tidy(m.set_var(name, val)),
        keeps_live(m.vars, m.set_var(name, val).vars),
        keeps_live(m.set_var(name, val).vars, m.vars),
        m.set_var(name, val).vars.has_room() == m.vars.has_room(),
{
    lemma_set_is_tidy(m.vars, m.definer(), name, val);
    lemma_arena_change_keeps_tidy(m, m.vars.set(m.definer(), name, val));
}

/// Tidy values joined are tidy.
pub proof fn lemma_joined_are_tidy(a: Arena, x: Seq<Term>, y: Seq<Term>)
    requires
        vals_tidy(a, x),
        vals_tidy(a, y),
    ensures
        vals_tidy(a, x + y),
{
    lemma_vals_tidy(a, x);
    lemma_vals_tidy(a, y);
    lemma_vals_tidy(a, x + y);
    assert forall|i: int| 0 <= i < (x + y).len() implies val_tidy(a, #[trigger] (x + y)[i]) by {
        if i < x.len() {
            assert((x + y)[i] == x[i]);
        } else {
            assert((x + y)[i] == y[i - x.len()]);
        }
    }
}

/// A part of tidy values is tidy, and so is each of them.
pub proof fn lemma_part_is_tidy(a: Arena, x: Seq<Term>, i: int, j: int)
    requires
        vals_tidy(a, x),
        0 <= i <= j <= x.len(),
    ensures
        vals_tidy(a, x.subrange(i, j)),
        forall|k: int| 0 <= k < x.len() ==> val_tidy(a, #[trigger] x[k]),
{
    lemma_vals_tidy(a, x);
    lemma_vals_tidy(a, x.subrange(i, j));
    assert forall|k: int| 0 <= k < x.subrange(i, j).len() implies val_tidy(
        a,
        #[trigger] x.subrange(i, j)[k],
    ) by {
        assert(x.subrange(i, j)[k] == x[i + k]);
    }
}

/// One, two or three tidy values in a row are tidy.
pub proof fn lemma_few_are_tidy(a: Arena, x: Term, y: Term, z: Term)
    requires
        val_tidy(a, x),
        val_tidy(a, y),
        val_tidy(a, z),
    ensures
        vals_tidy(a, seq![x]),
        vals_tidy(a, seq![x, y]),
        vals_tidy(a, seq![x, y, z]),
        vals_tidy(a, Seq::empty()),
{
    lemma_vals_tidy(a, seq![x]);
    lemma_vals_tidy(a, seq![x, y]);
    lemma_vals_tidy(a, seq![x, y, z]);
}

/// What the reader hands over holds no closure.
pub proof fn lemma_read_is_tidy(a: Arena, tree: Tree)
    ensures
        val_tidy(a, tree.value()),
    decreases tree,
{
    match tree {
        Tree::List(l) => {
            let vals = tree.value()->List_0;
            lemma_vals_tidy(a, vals);
            assert forall|i: int| 0 <= i < vals.len() implies val_tidy(a, #[trigger] vals[i]) by {
                assert(vals[i] == l[i].value());
                lemma_read_is_tidy(a, l[i]);
            }
        },
        _ => {},
    }
}

/// What is parsed holds no closure.
pub proof fn lemma_parsed_is_tidy(a: Arena, text: Seq<char>)
    ensures
        val_tidy(a, parsed(text)),
{
    match crate::val::reading(text, 0) {
        Reading::Expr(tree) => {
            lemma_read_is_tidy(a, tree);
        },
        _ => {},
    }
}

/// The expressions that are parsed from a text hold no closure.
pub proof fn lemma_parsed_from_is_tidy(a: Arena, text: Seq<char>, n: nat, limit: nat)
    ensures
        vals_tidy(a, crate::val::parsed_from(text, n, limit)),
    decreases limit - n,
{
    if n < limit {
        match crate::val::reading(text, n) {
            Reading::Expr(tree) => {
                lemma_read_is_tidy(a, tree);
                lemma_few_are_tidy(a, tree.value(), tree.value(), tree.value());
                lemma_parsed_from_is_tidy(a, text, n + 1, limit);
                lemma_joined_are_tidy(
                    a,
                    seq![tree.value()],
                    crate::val::parsed_from(text, n + 1, limit),
                );
            },
            _ => {},
        }
    }
}

/// A symbol that is looked up gives a tidy value.
pub proof fn lemma_resolved_is_tidy(m: Machine, val: Term)
    requires
        tidy(m),
        val_tidy(m.vars, val),
    ensures
        val_tidy(m.vars, builtins::resolved(m, val)),
{
    match val {
        Term::Sym(name) => {
            if m.get_var(name) is Some {
                lemma_found_is_tidy(m.vars, m.get_var_ref(), name);
            }
        },
        _ => {},
    }
}

/// Asking the host to print keeps the machine tidy.
pub proof fn law_print_keeps_tidy(m: Machine, text: Seq<char>)
    requires
        tidy(m),
    ensures
        tidy(m.print(text)),
        m.print(text).vars == m.vars,
        m.print(text).stack == m.stack,
{
    lemma_parsed_is_tidy(m.vars, "(print \""@ + text + "\")"@);
    law_send_event_keeps_tidy(m, Machine::print_event(text));
}

/// The program that takes over, if it is tidy, keeps the machine tidy.
pub proof fn law_set_main_program_keeps_tidy(m: Machine, prog: Term)
    requires
        tidy(m),
        m.vars.has_room(),
        val_tidy(m.vars, prog),
    ensures
        tidy(m.set_main_program(prog)),
{
    let a = m.vars;
    let b = a.new_child(Arena::root());
    lemma_new_child_is_tidy(a, Arena::root());
    let moved = Machine { vars: b, ..m };
    lemma_arena_change_keeps_tidy(m, b);
    let list = Machine::program(prog);
    lemma_few_are_tidy(a, prog, prog, prog);
    assert(vals_tidy(a, list));
    lemma_vals_stay_tidy(a, b, list);
    let stack = seq![Frame::fresh(a.next(), list)];
    assert(stack_tidy(b, stack));
    let after = m.set_main_program(prog);
    assert forall|k: int| 0 <= k < after.back_stack.len() implies stack_tidy(
        b,
        #[trigger] after.back_stack[k],
    ) by {
        if m.back_stack.len() > 0 && k != 0 {
            assert(after.back_stack[k] == moved.back_stack[k]);
        }
    }
    assert(after.stack == moved.stack);
    assert(stack_tidy(b, after.stack));
}

/// The branch of a conditional keeps the machine tidy.
pub proof fn lemma_branch_keeps_tidy(m: Machine, val: Term)
    requires
        tidy(m),
        val_tidy(m.vars, val),
    ensures
        tidy(builtins::choose_branch(m, val)),
{
    match val {
        Term::List(list) => {
            law_replace_keeps_tidy(m, list);
        },
        _ => {
            lemma_resolved_is_tidy(m, val);
            law_return_keeps_tidy(m, builtins::resolved(m, val));
        },
    }
}

/// A definition keeps the machine tidy.
#[verifier::rlimit(30)]
pub proof fn lemma_define_keeps_tidy(m: Machine, args: Seq<Term>)
    requires
        tidy(m),
        m.vars.has_room(),
        vals_tidy(m.vars, args),
    ensures
        tidy(builtins::define(m, args)),
{
    let a = m.vars;
    let nil = Term::nil();
    lemma_part_is_tidy(a, args, 0, 0);
    if args.len() == 0 {
        law_return_keeps_tidy(m, nil);
    } else {
        let val = if args.len() > 1 {
            args[1]
        } else {
            nil
        };
        assert(val_tidy(a, val));
        match args[0] {
            Term::Sym(name) => match val {
                Term::List(list) => if list.len() == 0 {
                    law_set_var_keeps_tidy(m, name, nil);
                    law_return_keeps_tidy(m.set_var(name, nil), nil);
                } else if m.stack.len() > 0 && m.stack.last().pc <= 2 {
                    law_set_pc_keeps_tidy(m, 2);
                    law_add_stackframe_keeps_tidy(m.set_pc(2), list);
                } else {
                    law_set_var_keeps_tidy(m, name, val);
                    law_return_keeps_tidy(m.set_var(name, val), nil);
                },
                _ => {
                    lemma_resolved_is_tidy(m, val);
                    let bound = builtins::resolved(m, val);
                    law_set_var_keeps_tidy(m, name, bound);
                    law_return_keeps_tidy(m.set_var(name, bound), nil);
                },
            },
            Term::List(call) => if call.len() > 0 && call[0] is Sym {
                lemma_active_scope_is_live(m);
                lemma_part_is_tidy(a, call, 1, call.len() as int);
                let params = Term::List(call.subrange(1, call.len() as int));
                lemma_few_are_tidy(a, Term::Sym("lambda"@), params, val);
                let closure = Term::Lambda(
                    false,
                    m.get_var_ref(),
                    seq![Term::Sym("lambda"@), params, val],
                );
                law_set_var_keeps_tidy(m, call[0]->Sym_0, closure);
                law_return_keeps_tidy(m.set_var(call[0]->Sym_0, closure), nil);
            } else {
                law_return_keeps_tidy(m, nil);
            },
            _ => {
                law_return_keeps_tidy(m, nil);
            },
        }
    }
}

/// A definition of syntax keeps the machine tidy.
pub proof fn lemma_define_syntax_keeps_tidy(m: Machine, args: Seq<Term>)
    requires
        tidy(m),
        vals_tidy(m.vars, args),
    ensures
        tidy(builtins::define_syntax(m, args)),
{
    let a = m.vars;
    let nil = Term::nil();
    lemma_part_is_tidy(a, args, 0, 0);
    lemma_active_scope_is_live(m);
    if args.len() == 0 {
        law_return_keeps_tidy(m, nil);
    } else {
        let val = if args.len() > 1 {
            match args[1] {
                Term::List(list) => Term::Lambda(true, m.get_var_ref(), list),
                _ => args[1],
            }
        } else {
            nil
        };
        assert(val_tidy(a, val));
        match args[0] {
            Term::Sym(name) => {
                lemma_resolved_is_tidy(m, val);
                let bound = builtins::resolved(m, val);
                law_set_var_keeps_tidy(m, name, bound);
                law_return_keeps_tidy(m.set_var(name, bound), nil);
            },
            Term::List(call) => if call.len() > 0 && call[0] is Sym {
                lemma_part_is_tidy(a, call, 1, call.len() as int);
                let params = Term::List(call.subrange(1, call.len() as int));
                lemma_few_are_tidy(a, Term::Sym("lambda"@), params, val);
                let form = Term::List(seq![Term::Sym("lambda"@), params, val]);
                law_set_var_keeps_tidy(m, call[0]->Sym_0, form);
                law_return_keeps_tidy(m.set_var(call[0]->Sym_0, form), nil);
            } else {
                law_return_keeps_tidy(m, nil);
            },
            _ => {
                law_return_keeps_tidy(m, nil);
            },
        }
    }
}

/// A conditional keeps the machine tidy.
pub proof fn lemma_if_keeps_tidy(m: Machine, args: Seq<Term>)
    requires
        tidy(m),
        m.vars.has_room(),
        vals_tidy(m.vars, args),
    ensures
        tidy(builtins::if_(m, args)),
{
    let a = m.vars;
    lemma_part_is_tidy(a, args, 0, 0);
    assert(val_tidy(a, builtins::branch(args, 1)));
    assert(val_tidy(a, builtins::branch(args, 2)));
    if args.len() == 0 {
        law_return_keeps_tidy(m, Term::nil());
    } else {
        let pc = if m.stack.len() > 0 {
            m.stack.last().pc
        } else {
            0
        };
        match args[0] {
            Term::List(list) => if list.len() == 0 {
                lemma_branch_keeps_tidy(m, builtins::branch(args, 2));
            } else if pc <= 1 {
                law_set_pc_keeps_tidy(m, 1);
                law_add_stackframe_keeps_tidy(m.set_pc(1), list);
            } else {
                lemma_branch_keeps_tidy(m, builtins::branch(args, 1));
            },
            Term::Sym(name) => if pc <= 1 {
                law_set_pc_keeps_tidy(m, 2);
                lemma_branch_keeps_tidy(m.set_pc(2), builtins::branch(args, 1));
                lemma_branch_keeps_tidy(m.set_pc(2), builtins::branch(args, 2));
            } else {
                lemma_branch_keeps_tidy(m, builtins::branch(args, 1));
            },
            _ => {
                lemma_branch_keeps_tidy(m, builtins::branch(args, 1));
            },
        }
    }
}

/// A request for a file keeps the machine tidy.
pub proof fn lemma_load_keeps_tidy(m: Machine, args: Seq<Term>)
    requires
        tidy(m),
        vals_tidy(m.vars, args),
    ensures
        tidy(builtins::load(m, args)),
{
    let a = m.vars;
    if args.len() == 0 {
        law_return_keeps_tidy(m, Term::nil());
    } else {
        match args[0] {
            Term::Text(filename) => {
                let told = m.print("Loading file: "@ + filename);
                law_print_keeps_tidy(m, "Loading file: "@ + filename);
                lemma_few_are_tidy(a, Term::Message("load"@), Term::Text(filename), Term::nil());
                law_replace_keeps_tidy(told, builtins::load_request(filename));
                law_set_pc_keeps_tidy(told.replace_stackframe(builtins::load_request(filename)), 2);
            },
            _ => {
                let told = m.print("Could not load file: "@ + args[0].text());
                law_print_keeps_tidy(m, "Could not load file: "@ + args[0].text());
                law_return_keeps_tidy(told, Term::nil());
            },
        }
    }
}

/// A native procedure keeps the machine tidy, whatever it is applied to.
#[verifier::rlimit(30)]
pub proof fn law_native_keeps_tidy(m: Machine, procedure: Native, args: Seq<Term>)
    requires
        tidy(m),
        m.vars.has_room(),
        vals_tidy(m.vars, args),
    ensures
        tidy(builtins::native(m, procedure, args)),
{
    let a = m.vars;
    let nil = Term::nil();
    lemma_part_is_tidy(a, args, 0, 0);
    lemma_active_scope_is_live(m);
    match procedure {
        Native::Quote => {
            law_return_keeps_tidy(m, nil);
            if args.len() > 0 {
                law_return_keeps_tidy(m, args[0]);
            }
        },
        Native::Lambda => {
            lemma_few_are_tidy(a, Term::Sym("lambda"@), nil, nil);
            lemma_joined_are_tidy(a, seq![Term::Sym("lambda"@)], args);
            law_return_keeps_tidy(
                m,
                Term::Lambda(false, m.get_var_ref(), seq![Term::Sym("lambda"@)] + args),
            );
        },
        Native::Define => {
            lemma_define_keeps_tidy(m, args);
        },
        Native::DefineSyntax => {
            lemma_define_syntax_keeps_tidy(m, args);
        },
        Native::Eval => {
            law_return_keeps_tidy(m, nil);
            lemma_few_are_tidy(a, Term::Sym("do"@), nil, nil);
            lemma_joined_are_tidy(a, seq![Term::Sym("do"@)], args);
            law_replace_keeps_tidy(m, seq![Term::Sym("do"@)] + args);
        },
        Native::If => {
            lemma_if_keeps_tidy(m, args);
        },
        Native::Load => {
            lemma_load_keeps_tidy(m, args);
        },
        Native::Car => {
            law_return_keeps_tidy(m, nil);
            if args.len() > 0 && args[0] is List && args[0]->List_0.len() > 0 {
                lemma_part_is_tidy(a, args[0]->List_0, 0, 0);
                law_return_keeps_tidy(m, args[0]->List_0[0]);
            }
        },
        Native::Cdr => {
            law_return_keeps_tidy(m, nil);
            if args.len() > 0 && args[0] is List && args[0]->List_0.len() > 0 {
                let l = args[0]->List_0;
                lemma_part_is_tidy(a, l, 1, l.len() as int);
                law_return_keeps_tidy(m, Term::List(l.subrange(1, l.len() as int)));
            }
        },
        Native::Cons => {
            law_return_keeps_tidy(m, nil);
            if args.len() > 1 && args[1] is List {
                lemma_few_are_tidy(a, args[0], nil, nil);
                lemma_joined_are_tidy(a, seq![args[0]], args[1]->List_0);
                law_return_keeps_tidy(m, Term::List(seq![args[0]] + args[1]->List_0));
            }
        },
        Native::Do => {
            law_return_keeps_tidy(m, nil);
            if args.len() > 0 {
                law_return_keeps_tidy(m, args.last());
            }
        },
        Native::Plus | Native::Minus | Native::Mult | Native::Div | Native::Modulo => {
            lemma_arithmetic_returns_number(m, procedure, args);
            let bits = choose|bits: u32|
                builtins::native(m, procedure, args) == #[trigger] m.return_stackframe(
                    Term::Num(bits),
                );
            lemma_returns_number(m, bits);
        },
        Native::Eq | Native::Less | Native::Greater | Native::LessEq | Native::GreaterEq
        | Native::TypeList | Native::TypeSym | Native::TypeString | Native::TypeNum
        | Native::TypeLambda | Native::Not => {
            lemma_returns_truth(m, true);
            lemma_returns_truth(m, false);
        },
        Native::Event => {
            law_send_event_keeps_tidy(m, Term::List(args));
            law_return_keeps_tidy(m.send_event(Term::List(args)), nil);
        },
        Native::Apply => {
            law_return_keeps_tidy(m, nil);
            if args.len() > 0 {
                lemma_few_are_tidy(a, args[0], nil, nil);
                law_replace_keeps_tidy(m, seq![args[0]]);
                if args.len() > 1 && args[1] is List {
                    lemma_joined_are_tidy(a, seq![args[0]], args[1]->List_0);
                    law_replace_keeps_tidy(m, seq![args[0]] + args[1]->List_0);
                }
            }
        },
        Native::Format => {
            law_return_keeps_tidy(m, Term::Text(builtins::formatted(args, args.len() as int)));
        },
        Native::SetProgram => {
            law_return_keeps_tidy(m, nil);
            if args.len() > 0 {
                law_set_main_program_keeps_tidy(m, args[0]);
                law_return_keeps_tidy(m.set_main_program(args[0]), nil);
            }
        },
    }
}

/// What an arithmetic procedure does is to end the frame with a number.
pub proof fn lemma_arithmetic_returns_number(m: Machine, procedure: Native, args: Seq<Term>)
    requires
        procedure == Native::Plus || procedure == Native::Minus || procedure == Native::Mult
            || procedure == Native::Div || procedure == Native::Modulo,
    ensures
        exists|bits: u32|
            builtins::native(m, procedure, args) == #[trigger] m.return_stackframe(Term::Num(bits)),
{
    let zero = crate::number::ZERO;
    let one = crate::number::ONE;
    let n = args.len() as int;
    let first = builtins::first_number(args);
    let bits = match procedure {
        Native::Plus => builtins::folded(crate::number::Arith::Plus, args, 0, n, zero),
        Native::Mult => builtins::folded(crate::number::Arith::Times, args, 0, n, one),
        Native::Minus => if n == 0 {
            zero
        } else if n == 1 {
            crate::number::negated(first)
        } else {
            builtins::folded(crate::number::Arith::Minus, args, 1, n, first)
        },
        Native::Div => if n == 0 {
            zero
        } else if n == 1 {
            crate::number::quotient(one, first)
        } else {
            builtins::folded(crate::number::Arith::Over, args, 1, n, first)
        },
        _ => if n == 0 {
            zero
        } else {
            builtins::folded(crate::number::Arith::Modulo, args, 1, n, first)
        },
    };
    assert(builtins::native(m, procedure, args) == m.return_stackframe(Term::Num(bits)));
}

/// A number as the value of a frame keeps the machine tidy.
pub proof fn lemma_returns_number(m: Machine, bits: u32)
    requires
        tidy(m),
    ensures
        tidy(m.return_stackframe(Term::Num(bits))),
{
    law_return_keeps_tidy(m, Term::Num(bits));
}

/// A truth value as the value of a frame keeps the machine tidy.
pub proof fn lemma_returns_truth(m: Machine, b: bool)
    requires
        tidy(m),
    ensures
        tidy(m.return_stackframe(builtins::truth_of(b))),
{
    law_return_keeps_tidy(m, builtins::truth_of(b));
}

/// Binding names to tidy values takes no scope out of use or into use and
/// leaves the bindings tidy.
pub proof fn lemma_bind_names_is_tidy(
    a: Arena,
    scope: ScopeRef,
    names: Seq<Term>,
    params: Seq<Term>,
    n: nat,
)
    requires
        a.wf(),
        binds_tidy(a),
        vals_tidy(a, params),
        n <= names.len(),
    ensures
        Machine::bind_names(a, scope, names, params, n).wf(),
        keeps_live(a, Machine::bind_names(a, scope, names, params, n)),
        keeps_live(Machine::bind_names(a, scope, names, params, n), a),
        binds_tidy(Machine::bind_names(a, scope, names, params, n)),
    decreases n,
{
    if n > 0 {
        lemma_bind_names_is_tidy(a, scope, names, params, (n - 1) as nat);
        let before = Machine::bind_names(a, scope, names, params, (n - 1) as nat);
        match names[n - 1] {
            Term::Sym(name) => if n - 1 < params.len() {
                lemma_part_is_tidy(a, params, 0, 0);
                lemma_val_stays_tidy(a, before, params[n - 1]);
                lemma_set_is_tidy(before, scope, name, params[n - 1]);
                let after = before.set(scope, name, params[n - 1]);
                assert forall|s: ScopeRef| a.live(s) implies #[trigger] after.live(s) by {
                    assert(before.live(s));
                }
                assert forall|s: ScopeRef| after.live(s) implies #[trigger] a.live(s) by {
                    assert(before.live(s));
                }
            },
            _ => {},
        }
    }
}

/// Binding the parameters of a closure to tidy values takes no scope out of
/// use or into use and leaves the bindings tidy.
pub proof fn lemma_bind_is_tidy(a: Arena, scope: ScopeRef, pattern: Term, params: Seq<Term>)
    requires
        a.wf(),
        binds_tidy(a),
        vals_tidy(a, params),
    ensures
        Machine::bind(a, scope, pattern, params).wf(),
        keeps_live(a, Machine::bind(a, scope, pattern, params)),
        keeps_live(Machine::bind(a, scope, pattern, params), a),
        binds_tidy(Machine::bind(a, scope, pattern, params)),
{
    match pattern {
        Term::List(names) => {
            lemma_bind_names_is_tidy(a, scope, names, params, names.len());
        },
        Term::Sym(name) => {
            lemma_set_is_tidy(a, scope, name, Term::List(params));
        },
        _ => {},
    }
}

/// The call of a closure keeps the machine tidy.
#[verifier::rlimit(30)]
pub proof fn law_call_closure_keeps_tidy(m: Machine)
    requires
        tidy(m),
        m.vars.has_room(),
        m.stack.len() > 0,
        m.stack.last().accum.len() > 0,
    ensures
        tidy(m.call_closure()),
{
    let a = m.vars;
    let frame = m.stack.last();
    assert(frame_tidy(a, m.stack[m.stack.len() - 1]));
    let callable = frame.accum[0];
    let tail = frame.accum.subrange(1, frame.accum.len() as int);
    lemma_part_is_tidy(a, frame.accum, 1, frame.accum.len() as int);
    assert(val_tidy(a, callable));
    let list = match callable.form() {
        Some(l) => l,
        None => Seq::empty(),
    };
    assert(vals_tidy(a, list));
    if list.len() < 3 || list[0] != Term::Sym("lambda"@) {
        law_return_keeps_tidy(m, Term::List(frame.accum));
    } else {
        lemma_part_is_tidy(a, list, 2, list.len() as int);
        let captured = match callable {
            Term::Lambda(_, scope, _) => scope,
            _ => Arena::root(),
        };
        let scope = a.next();
        let params = Machine::params(callable, frame.vars, tail);
        let nil = Term::nil();
        lemma_few_are_tidy(a, Term::Sym("$x"@), nil, nil);
        lemma_few_are_tidy(a, Term::Sym("eval"@), Term::Sym("$x"@), nil);
        lemma_few_are_tidy(
            a,
            Term::Sym("lambda"@),
            Term::List(seq![Term::Sym("$x"@)]),
            Term::List(seq![Term::Sym("eval"@), Term::Sym("$x"@)]),
        );
        assert(val_tidy(a, Machine::expander(frame.vars)));
        lemma_few_are_tidy(a, Machine::expander(frame.vars), Term::List(tail), nil);
        assert(vals_tidy(a, params));
        let b0 = a.new_child(captured);
        lemma_new_child_is_tidy(a, captured);
        lemma_vals_stay_tidy(a, b0, params);
        let b1 = Machine::bind(b0, scope, list[1], params);
        lemma_bind_is_tidy(b0, scope, list[1], params);
        assert forall|s: ScopeRef| a.live(s) implies #[trigger] b1.live(s) by {
            assert(b0.live(s));
        }
        lemma_arena_change_keeps_tidy(m, b1);
        let bound = Machine { vars: b1, ..m };
        assert(b1.live(scope));
        lemma_vals_stay_tidy(a, b1, list);
        lemma_part_is_tidy(b1, list, 2, list.len() as int);
        if list.len() > 3 {
            lemma_few_are_tidy(b1, Term::Sym("do"@), nil, nil);
            lemma_joined_are_tidy(b1, seq![Term::Sym("do"@)], list.subrange(2, list.len() as int));
            let body = seq![Term::Sym("do"@)] + list.subrange(2, list.len() as int);
            law_enter_keeps_tidy(bound, scope, body);
            law_release_keeps_tidy(bound.enter(scope, body), frame.vars);
        } else {
            match list[2] {
                Term::List(body) => {
                    law_enter_keeps_tidy(bound, scope, body);
                    law_release_keeps_tidy(bound.enter(scope, body), frame.vars);
                },
                Term::Sym(name) => {
                    let val = match b1.get(scope, name) {
                        Some(v) => v,
                        None => list[2],
                    };
                    if b1.get(scope, name) is Some {
                        lemma_found_is_tidy(b1, scope, name);
                    }
                    law_return_keeps_tidy(bound, val);
                    law_release_keeps_tidy(bound.return_stackframe(val), scope);
                },
                _ => {
                    law_return_keeps_tidy(bound, list[2]);
                    law_release_keeps_tidy(bound.return_stackframe(list[2]), scope);
                },
            }
        }
    }
}

/// Applying the active frame keeps the machine tidy.
pub proof fn law_call_keeps_tidy(m: Machine)
    requires
        tidy(m),
        m.vars.has_room(),
    ensures
        tidy(m.call()),
{
    if m.stack.len() > 0 {
        let frame = m.stack.last();
        assert(frame_tidy(m.vars, m.stack[m.stack.len() - 1]));
        if frame.accum.len() == 0 {
            law_return_keeps_tidy(m, Term::nil());
        } else {
            match frame.accum[0] {
                Term::Builtin(_, procedure) => {
                    lemma_part_is_tidy(m.vars, frame.accum, 1, frame.accum.len() as int);
                    law_native_keeps_tidy(
                        m,
                        procedure,
                        frame.accum.subrange(1, frame.accum.len() as int),
                    );
                },
                _ => {
                    law_call_closure_keeps_tidy(m);
                },
            }
        }
    }
}

/// A step keeps the machine tidy: whatever the program does, and whichever
/// scopes are given up on the way, no frame is left working in a free slot
/// and no closure is left that captured one.
#[verifier::rlimit(30)]
pub proof fn law_step_keeps_tidy(m: Machine)
    requires
        tidy(m),
        m.vars.has_room(),
    ensures
        tidy(m.worked()),
        tidy(m.step()),
{
    let a = m.vars;
    if m.stack.len() > 0 {
        let frame = m.stack.last();
        assert(frame_tidy(a, m.stack[m.stack.len() - 1]));
        law_call_keeps_tidy(m);
        if !(frame.pc >= frame.accum.len() || frame.pc < 0) && !(frame.pc >= 1
            && Machine::takes_raw(frame)) {
            lemma_part_is_tidy(a, frame.accum, 0, 0);
            match frame.accum[frame.pc] {
                Term::Sym(name) => {
                    if a.get(frame.vars, name) is Some {
                        lemma_found_is_tidy(a, frame.vars, name);
                        lemma_deliver_keeps_tidy(a, m.stack, a.get(frame.vars, name)->0);
                    } else {
                        law_set_pc_keeps_tidy(m, frame.pc + 1);
                    }
                },
                Term::List(list) => {
                    law_add_stackframe_keeps_tidy(m, list);
                },
                _ => {
                    law_set_pc_keeps_tidy(m, frame.pc + 1);
                },
            }
        }
    }
    let w = m.worked();
    assert(tidy(w));
    if w.stack.len() == 0 && w.back_stack.len() > 0 {
        let last = w.back_stack.len() - 1;
        assert(stack_tidy(w.vars, w.back_stack[last]));
        let after = m.step();
        assert forall|k: int| 0 <= k < after.back_stack.len() implies stack_tidy(
            after.vars,
            #[trigger] after.back_stack[k],
        ) by {
            assert(after.back_stack[k] == w.back_stack[k]);
        }
    }
}

/// A tidy program keeps the machine tidy when it is started.
pub proof fn law_set_program_keeps_tidy(m: Machine, val: Term)
    requires
        tidy(m),
        m.vars.has_room(),
        val_tidy(m.vars, val),
    ensures
        tidy(m.set_program(val)),
{
    let cleared = Machine { stack: Seq::empty(), ..m };
    assert(tidy(cleared));
    match val {
        Term::List(list) => {
            law_add_stackframe_keeps_tidy(cleared, list);
        },
        _ => {
            lemma_resolved_is_tidy(cleared, val);
        },
    }
}

/// The answer to a pending `load` keeps the machine tidy, whether the host
/// read the file or not.
pub proof fn law_answer_load_keeps_tidy(m: Machine, text: Option<Seq<char>>)
    requires
        tidy(m),
    ensures
        tidy(m.answer_load(text)),
{
    match m.wanted_file() {
        Some(name) => match text {
            Some(source) => {
                lemma_parsed_from_is_tidy(m.vars, source, 0, crate::val::bytes(source));
                law_replace_keeps_tidy(m, crate::val::parsed_all(source));
            },
            None => {
                let line = "Could not load file: "@ + name;
                law_print_keeps_tidy(m, line);
                law_return_keeps_tidy(m.print(line), Term::nil());
            },
        },
        None => {},
    }
}

/// A tidy program keeps the machine tidy when it interrupts.
pub proof fn law_interrupt_keeps_tidy(m: Machine, val: Term)
    requires
        tidy(m),
        m.vars.has_room(),
        val_tidy(m.vars, val),
    ensures
        tidy(m.interrupt(val)),
{
    let parked = Machine { back_stack: m.back_stack.push(m.stack), ..m };
    assert forall|k: int| 0 <= k < parked.back_stack.len() implies stack_tidy(
        parked.vars,
        #[trigger] parked.back_stack[k],
    ) by {
        if k < m.back_stack.len() {
            assert(parked.back_stack[k] == m.back_stack[k]);
        }
    }
    law_set_program_keeps_tidy(parked, val);
}

/// A machine that holds no closure and no frame is tidy as soon as its
/// scopes form a forest: so is the machine at its start.
pub proof fn law_machine_without_closures_is_tidy(m: Machine)
    requires
        m.vars.wf(),
        m.stack.len() == 0,
        m.back_stack.len() == 0,
        m.events.len() == 0,
        val_tidy(m.vars, m.result),
        binds_tidy(m.vars),
    ensures
        tidy(m),
{
}

/// Binding native procedures keeps the arena a forest and its bindings
/// tidy.
pub proof fn lemma_natives_are_tidy(a: Arena, scope: ScopeRef, n: nat)
    requires
        a.wf(),
        binds_tidy(a),
        n <= builtins::table().len(),
    ensures
        a.set_all(scope, builtins::table(), n).wf(),
        binds_tidy(a.set_all(scope, builtins::table(), n)),
    decreases n,
{
    if n > 0 {
        lemma_natives_are_tidy(a, scope, (n - 1) as nat);
        let before = a.set_all(scope, builtins::table(), (n - 1) as nat);
        let entry = builtins::table()[n - 1];
        assert(entry.1 is Builtin);
        lemma_set_is_tidy(before, scope, entry.0, entry.1);
    }
}

/// The machine at its start is tidy.
pub proof fn law_initial_is_tidy()
    ensures
        tidy(Machine::initial()),
{
    let a = Arena::fresh();
    assert(a.wf());
    assert(binds_tidy(a));
    lemma_natives_are_tidy(a, Arena::root(), builtins::table().len());
}

/// A scope in use does not stand below a free slot.
pub proof fn lemma_live_is_not_below_free(a: Arena, scope: ScopeRef, free: ScopeRef)
    requires
        a.wf(),
        a.live(scope),
        a.is_free(free),
    ensures
        !a.scope_has_ancestor(scope, free),
    decreases a.depth_of(scope),
{
    if scope != Arena::root() {
        lemma_parent_is_live(a, scope);
        assert(a.depth[scope.0 as int] == a.depth[a.scopes[scope.0 as int].parent.0 as int] + 1);
        lemma_live_is_not_below_free(a, a.parent(scope), free);
    }
}

/// A tidy value holds no closure that captured a free slot or a scope
/// below one.
pub proof fn lemma_tidy_val_is_clear(a: Arena, free: ScopeRef, val: Term)
    requires
        a.wf(),
        a.is_free(free),
        val_tidy(a, val),
    ensures
        !a.val_has_ancestor(free, val),
    decreases val,
{
    match val {
        Term::Lambda(_, captured, l) => {
            lemma_live_is_not_below_free(a, captured, free);
            lemma_tidy_vals_are_clear(a, free, l);
        },
        Term::List(l) => {
            lemma_tidy_vals_are_clear(a, free, l);
        },
        _ => {},
    }
}

/// Tidy values hold no closure that captured a free slot or a scope below
/// one.
pub proof fn lemma_tidy_vals_are_clear(a: Arena, free: ScopeRef, vals: Seq<Term>)
    requires
        a.wf(),
        a.is_free(free),
        vals_tidy(a, vals),
    ensures
        !a.vals_have_ancestor(free, vals),
    decreases vals,
{
    if vals.len() > 0 {
        lemma_tidy_val_is_clear(a, free, vals.last());
        lemma_tidy_vals_are_clear(a, free, vals.drop_last());
    }
}

/// A tidy stack does not reference a free slot.
pub proof fn lemma_tidy_stack_is_clear(a: Arena, free: ScopeRef, stack: Seq<Frame>)
    requires
        a.wf(),
        a.is_free(free),
        stack_tidy(a, stack),
    ensures
        !stack_references(stack, a, free),
{
    assert forall|i: int| 0 <= i < stack.len() implies !(#[trigger] stack[i]).references(a, free) by {
        let f = stack[i];
        assert(frame_tidy(a, f));
        lemma_live_is_not_below_free(a, f.vars, free);
        lemma_tidy_vals_are_clear(a, free, f.accum);
        lemma_tidy_vals_are_clear(a, free, f.init);
    }
}

/// A tidy machine references no free slot: the slot that is handed out next
/// is one that no frame works in and no closure captured.
pub proof fn law_free_slot_is_unreferenced(m: Machine, free: ScopeRef)
    requires
        tidy(m),
        m.vars.is_free(free),
    ensures
        !m.references(free),
{
    let a = m.vars;
    lemma_tidy_stack_is_clear(a, free, m.stack);
    assert forall|k: int| 0 <= k < m.back_stack.len() implies !stack_references(
        #[trigger] m.back_stack[k],
        a,
        free,
    ) by {
        lemma_tidy_stack_is_clear(a, free, m.back_stack[k]);
    }
    lemma_tidy_val_is_clear(a, free, m.result);
    lemma_tidy_vals_are_clear(a, free, m.events);
    assert forall|i: int, j: int|
        0 <= i < a.scopes.len() && 0 <= j < a.scopes[i].vars.len() implies !a.val_has_ancestor(
        free,
        (#[trigger] a.scopes[i].vars[j]).1,
    ) by {
        let s = ScopeRef(i as usize);
        assert(a.holds(s));
        assert(val_tidy(a, a.scopes[s.0 as int].vars[j].1));
        lemma_tidy_val_is_clear(a, free, a.scopes[i].vars[j].1);
    }
}

/// Whether the arena has room for a further scope before each of the next
/// `n` steps.
pub open spec fn roomy(m: Machine, n: nat) -> bool
    decreases n,
{
    n == 0 || (m.vars.has_room() && roomy(m.step(), (n - 1) as nat))
}

/// However many steps are taken, the machine stays tidy.
pub proof fn law_steps_keep_tidy(m: Machine, n: nat)
    requires
        tidy(m),
        roomy(m, n),
    ensures
        tidy(crate::laws::after(m, n)),
    decreases n,
{
    if n > 0 {
        law_step_keeps_tidy(m);
        law_steps_keep_tidy(m.step(), (n - 1) as nat);
    }
}

/// Binding names leaves the number of slots of the arena as it is.
pub proof fn lemma_bind_names_keeps_slots(
    a: Arena,
    scope: ScopeRef,
    names: Seq<Term>,
    params: Seq<Term>,
    n: nat,
)
    ensures
        Machine::bind_names(a, scope, names, params, n).scopes.len() == a.scopes.len(),
    decreases n,
{
    if n > 0 {
        lemma_bind_names_keeps_slots(a, scope, names, params, (n - 1) as nat);
    }
}

/// The end of a frame leaves the number of slots of the arena as it is.
pub broadcast proof fn law_return_keeps_slots(m: Machine, val: Term)
    ensures
        (#[trigger] m.return_stackframe(val)).vars.scopes.len() == m.vars.scopes.len(),
{
    broadcast use crate::exec::law_release_keeps_slots;

}

/// A native procedure makes the arena at most one slot larger.
#[verifier::rlimit(30)]
pub proof fn law_native_grows_by_one(m: Machine, procedure: Native, args: Seq<Term>)
    requires
        m.vars.wf(),
    ensures
        builtins::native(m, procedure, args).vars.scopes.len() <= m.vars.scopes.len() + 1,
{
    broadcast use law_return_keeps_slots;

    match procedure {
        Native::Define => {
            assert(builtins::define(m, args).vars.scopes.len() <= m.vars.scopes.len() + 1);
        },
        Native::DefineSyntax => {
            assert(builtins::define_syntax(m, args).vars.scopes.len() <= m.vars.scopes.len() + 1);
        },
        Native::If => {
            assert(builtins::if_(m, args).vars.scopes.len() <= m.vars.scopes.len() + 1);
        },
        Native::Load => {
            assert(builtins::load(m, args).vars.scopes.len() <= m.vars.scopes.len() + 1);
        },
        Native::SetProgram => {
            assert(builtins::set_program(m, args).vars.scopes.len() <= m.vars.scopes.len() + 1);
        },
        _ => {},
    }
}

/// The call of a closure makes the arena at most one slot larger.
#[verifier::rlimit(30)]
pub proof fn law_call_closure_grows_by_one(m: Machine)
    requires
        m.vars.wf(),
        m.stack.len() > 0,
        m.stack.last().accum.len() > 0,
    ensures
        m.call_closure().vars.scopes.len() <= m.vars.scopes.len() + 1,
{
    broadcast use law_return_keeps_slots;
    broadcast use crate::exec::law_release_keeps_slots;

    let frame = m.stack.last();
    let callable = frame.accum[0];
    let list = match callable.form() {
        Some(l) => l,
        None => Seq::empty(),
    };
    if list.len() >= 3 && list[0] == Term::Sym("lambda"@) {
        let captured = match callable {
            Term::Lambda(_, scope, _) => scope,
            _ => Arena::root(),
        };
        let params = Machine::params(
            callable,
            frame.vars,
            frame.accum.subrange(1, frame.accum.len() as int),
        );
        let b0 = m.vars.new_child(captured);
        let b1 = Machine::bind(b0, m.vars.next(), list[1], params);
        match list[1] {
            Term::List(names) => {
                lemma_bind_names_keeps_slots(b0, m.vars.next(), names, params, names.len());
            },
            _ => {},
        }
        assert(b1.scopes.len() == b0.scopes.len());
        assert(b0.scopes.len() <= m.vars.scopes.len() + 1);
    }
}

/// A step makes the arena at most one slot larger.
#[verifier::rlimit(30)]
pub proof fn law_step_grows_by_one(m: Machine)
    requires
        m.vars.wf(),
    ensures
        m.worked().vars.scopes.len() <= m.vars.scopes.len() + 1,
        m.step().vars.scopes.len() <= m.vars.scopes.len() + 1,
{
    broadcast use law_return_keeps_slots;

    if m.stack.len() > 0 {
        let frame = m.stack.last();
        if frame.accum.len() > 0 {
            match frame.accum[0] {
                Term::Builtin(_, procedure) => {
                    law_native_grows_by_one(
                        m,
                        procedure,
                        frame.accum.subrange(1, frame.accum.len() as int),
                    );
                },
                _ => {
                    law_call_closure_grows_by_one(m);
                },
            }
        }
        assert(m.call().vars.scopes.len() <= m.vars.scopes.len() + 1);
    }
}

/// The machine stays tidy over a run of as many steps as the arena has room
/// for.
pub proof fn law_run_keeps_tidy(m: Machine, fuel: nat)
    requires
        tidy(m),
        m.vars.scopes.len() + fuel <= usize::MAX,
    ensures
        tidy(m.run(fuel)),
        tidy(m.steps(fuel)),
    decreases fuel,
{
    if fuel > 0 {
        law_step_keeps_tidy(m);
        law_step_grows_by_one(m);
        law_run_keeps_tidy(m.step(), (fuel - 1) as nat);
    }
}

/// An evaluation of a tidy program leaves a tidy machine tidy, as long as
/// the arena has room for a slot for each step of the budget.
pub proof fn law_evaluation_keeps_tidy(m: Machine, val: Term)
    requires
        tidy(m),
        val_tidy(m.vars, val),
        m.vars.scopes.len() + crate::exec::STEP_BUDGET + 1 <= usize::MAX,
    ensures
        tidy(m.set_program(val).steps(crate::exec::STEP_BUDGET as nat)),
{
    law_set_program_keeps_tidy(m, val);
    let started = m.set_program(val);
    assert(started.vars.scopes.len() <= m.vars.scopes.len() + 1);
    law_run_keeps_tidy(started, crate::exec::STEP_BUDGET as nat);
}

} // verus!
