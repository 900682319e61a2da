//! What scopes cost: laws of the measure of memory. A scope costs a handle
//! and its bindings while it is in use, and gives both back when it goes.

use crate::exec::Machine;
use crate::laws::{
    law_free_slots_fit, law_new_child_uses_one_more, law_remove_gives_back,
    lemma_bind_keeps_the_forest, lemma_release_keeps_active_scope,
};
use crate::val::Term;
use crate::variables::{Arena, ScopeModel, ScopeRef};
use vstd::layout::size_of;
use vstd::prelude::*;

verus! {

/// The measure of the bindings of a scope.
pub open spec fn weight_of(scope: ScopeModel) -> nat {
    Arena::vars_weight(scope.vars, scope.vars.len())
}

/// Where no scope of `b` weighs more than the same scope of `a`, the scopes
/// of `b` weigh no more than those of `a`.
proof fn lemma_weights_compare(a: Arena, b: Arena, n: nat)
    requires
        n <= a.scopes.len(),
        n <= b.scopes.len(),
        forall|i: int| 0 <= i < n ==> weight_of(#[trigger] b.scopes[i]) <= weight_of(a.scopes[i]),
    ensures
        b.scopes_weight(n) <= a.scopes_weight(n),
    decreases n,
{
    if n > 0 {
        lemma_weights_compare(a, b, (n - 1) as nat);
        assert(weight_of(b.scopes[n - 1]) <= weight_of(a.scopes[n - 1]));
    }
}

/// Where moreover the scope `k` of `b` holds nothing, the scopes of `b`
/// weigh less by what the scope `k` of `a` holds.
proof fn lemma_weights_drop(a: Arena, b: Arena, n: nat, k: int)
    requires
        n <= a.scopes.len(),
        n <= b.scopes.len(),
        forall|i: int| 0 <= i < n ==> weight_of(#[trigger] b.scopes[i]) <= weight_of(a.scopes[i]),
        0 <= k < n,
        weight_of(b.scopes[k]) == 0,
    ensures
        b.scopes_weight(n) + weight_of(a.scopes[k]) <= a.scopes_weight(n),
    decreases n,
{
    if n - 1 == k {
        lemma_weights_compare(a, b, (n - 1) as nat);
    } else {
        lemma_weights_drop(a, b, (n - 1) as nat, k);
        assert(weight_of(b.scopes[n - 1]) <= weight_of(a.scopes[n - 1]));
    }
}

/// Where the scopes of two arenas agree but for the scope `k`, their
/// measures differ by what the scope `k` holds in each.
proof fn lemma_weights_differ(a: Arena, b: Arena, n: nat, k: int)
    requires
        n <= a.scopes.len(),
        n <= b.scopes.len(),
        forall|i: int| 0 <= i < n && i != k ==> #[trigger] b.scopes[i] == a.scopes[i],
    ensures
        0 <= k < n ==> b.scopes_weight(n) + weight_of(a.scopes[k]) == a.scopes_weight(n)
            + weight_of(b.scopes[k]),
        !(0 <= k < n) ==> b.scopes_weight(n) == a.scopes_weight(n),
    decreases n,
{
    if n > 0 {
        lemma_weights_differ(a, b, (n - 1) as nat, k);
        if n - 1 != k {
            assert(b.scopes[n - 1] == a.scopes[n - 1]);
        }
    }
}

/// A handle more or less in use is its size more or less in the measure.
proof fn lemma_handles(size: nat, fewer: nat, more: nat)
    requires
        fewer + 1 <= more,
    ensures
        size * fewer + size <= size * more,
        fewer + 1 == more ==> size * fewer + size == size * more,
{
    assert(size * fewer + size == size * (fewer + 1)) by (nonlinear_arith);
    assert(size * (fewer + 1) <= size * more) by (nonlinear_arith)
        requires
            fewer + 1 <= more,
    ;
}

/// A new scope costs the size of one handle, whether its slot is new or was
/// free.
pub proof fn law_new_child_costs_a_handle(a: Arena, parent: ScopeRef)
    requires
        a.wf(),
        a.has_room(),
    ensures
        a.new_child(parent).memory_usage() == a.memory_usage() + size_of::<ScopeRef>(),
        weight_of(a.new_child(parent).scopes[a.next().0 as int]) == 0,
{
    let b = a.new_child(parent);
    let slot = a.next();
    law_new_child_uses_one_more(a, parent);
    lemma_handles(size_of::<ScopeRef>(), a.in_use(), b.in_use());
    if a.free.len() > 0 {
        assert(a.is_free(a.free[a.free.len() - 1]));
        assert(a.scopes[slot.0 as int] == ScopeModel::freed());
    }
    lemma_weights_differ(a, b, a.scopes.len(), slot.0 as int);
}

/// A binding changes the memory taken by what the bindings of its scope
/// weigh more or less than before.
pub proof fn law_binding_costs_its_weight(a: Arena, scope: ScopeRef, name: Seq<char>, val: Term)
    requires
        a.wf(),
        a.live(scope),
    ensures
        a.set(scope, name, val).memory_usage() + weight_of(a.scopes[scope.0 as int])
            == a.memory_usage() + weight_of(a.set(scope, name, val).scopes[scope.0 as int]),
{
    lemma_weights_differ(a, a.set(scope, name, val), a.scopes.len(), scope.0 as int);
}

/// Removing a scope never costs memory, and removing a scope in use gives
/// back at least the size of its handle and the measure of its bindings.
pub proof fn law_remove_frees_memory(a: Arena, scope: ScopeRef)
    requires
        a.wf(),
    ensures
        a.remove(scope).memory_usage() <= a.memory_usage(),
        scope != Arena::root() && a.live(scope) ==> a.remove(scope).memory_usage() + size_of::<
            ScopeRef,
        >() + weight_of(a.scopes[scope.0 as int]) <= a.memory_usage(),
{
    let b = a.remove(scope);
    crate::variables::lemma_remove(a, scope);
    law_remove_gives_back(a, scope);
    assert forall|i: int| 0 <= i < a.scopes.len() implies weight_of(#[trigger] b.scopes[i])
        <= weight_of(a.scopes[i]) by {
        let s = ScopeRef(i as usize);
        assert(b.scopes[s.0 as int] == (if a.removes(scope, s) {
            ScopeModel::freed()
        } else {
            a.scopes[s.0 as int]
        }));
    }
    let size = size_of::<ScopeRef>();
    if scope != Arena::root() && a.live(scope) {
        assert(a.removes(scope, scope));
        assert(b.scopes[scope.0 as int] == ScopeModel::freed());
        lemma_weights_drop(a, b, a.scopes.len(), scope.0 as int);
        lemma_handles(size, b.in_use(), a.in_use());
    } else {
        lemma_weights_compare(a, b, a.scopes.len());
        assert(size * b.in_use() <= size * a.in_use()) by (nonlinear_arith)
            requires
                b.in_use() <= a.in_use(),
        ;
    }
}

/// Giving a scope up never costs memory.
pub proof fn law_release_frees_memory(m: Machine, scope: ScopeRef)
    requires
        m.vars.wf(),
    ensures
        m.release(scope).vars.wf(),
        m.release(scope).vars.memory_usage() <= m.vars.memory_usage(),
    decreases m.vars.depth_of(scope),
{
    if scope != Arena::root() && m.vars.holds(scope) && !m.references(scope) {
        law_remove_frees_memory(m.vars, scope);
        crate::variables::lemma_remove(m.vars, scope);
        let freed = Machine { vars: m.vars.remove(scope), ..m };
        let parent = m.vars.parent(scope);
        if freed.vars.depth_of(parent) < m.vars.depth_of(scope) {
            law_release_frees_memory(freed, parent);
        }
    }
}

/// A scope in use that nothing references gives back, when it is given up,
/// at least the size of its handle and the measure of its bindings.
pub proof fn law_release_gives_the_memory_back(m: Machine, scope: ScopeRef)
    requires
        m.vars.wf(),
        scope != Arena::root(),
        m.vars.live(scope),
        !m.references(scope),
    ensures
        m.release(scope).vars.memory_usage() + size_of::<ScopeRef>() + weight_of(
            m.vars.scopes[scope.0 as int],
        ) <= m.vars.memory_usage(),
{
    law_remove_frees_memory(m.vars, scope);
    crate::variables::lemma_remove(m.vars, scope);
    let freed = Machine { vars: m.vars.remove(scope), ..m };
    let parent = m.vars.parent(scope);
    if freed.vars.depth_of(parent) < m.vars.depth_of(scope) {
        law_release_frees_memory(freed, parent);
    }
}

/// A frame that ends gives back what its scope cost: when the scope is free
/// after the return, as it is where nothing else references it, the memory
/// taken is less by at least the size of a handle and the measure of the
/// bindings of the scope.
pub proof fn law_return_gives_the_memory_back(m: Machine, val: Term)
    requires
        m.vars.wf(),
        m.stack.len() > 0,
        m.vars.live(m.stack.last().vars),
        m.return_stackframe(val).vars.is_free(m.stack.last().vars),
    ensures
        m.return_stackframe(val).vars.memory_usage() + size_of::<ScopeRef>() + weight_of(
            m.vars.scopes[m.stack.last().vars.0 as int],
        ) <= m.vars.memory_usage(),
{
    let scope = m.stack.last().vars;
    let rest = m.stack.drop_last();
    let popped = if rest.len() == 0 {
        Machine { stack: rest, result: val, ..m }
    } else {
        Machine { stack: Machine::deliver(rest, val), ..m }
    };
    assert(m.return_stackframe(val) == popped.release(scope));
    if scope != Arena::root() && !popped.references(scope) {
        law_release_gives_the_memory_back(popped, scope);
    }
}

/// A frame that is pushed and ends at once, with a value and in a state
/// that do not reference its scope, leaves no more memory taken than there
/// was before it.
pub proof fn law_frame_costs_no_memory(m: Machine, list: Seq<Term>, val: Term)
    requires
        m.vars.wf(),
        m.vars.has_room(),
        m.add_stackframe(list).return_stackframe(val).vars.is_free(m.vars.next()),
    ensures
        m.add_stackframe(list).return_stackframe(val).vars.memory_usage()
            <= m.vars.memory_usage(),
{
    let pushed = m.add_stackframe(list);
    let scope = m.vars.next();
    crate::variables::lemma_new_child(m.vars, m.get_var_ref());
    law_new_child_costs_a_handle(m.vars, m.get_var_ref());
    let rest = pushed.stack.drop_last();
    let popped = if rest.len() == 0 {
        Machine { stack: rest, result: val, ..pushed }
    } else {
        Machine { stack: Machine::deliver(rest, val), ..pushed }
    };
    assert(pushed.stack.last().vars == scope);
    assert(pushed.return_stackframe(val) == popped.release(scope));
    if m.vars.free.len() > 0 {
        assert(m.vars.is_free(m.vars.free[m.vars.free.len() - 1]));
    }
    assert(popped.vars.live(scope));
    if popped.references(scope) {
        assert(popped.release(scope) == popped);
    } else {
        law_release_gives_the_memory_back(popped, scope);
    }
}

/// A call in tail position trades the scope of the caller for the scope of
/// the call: when the scope that the active frame worked in is free after
/// the call, as it is where nothing else references it, the memory taken
/// grows by no more than what the bindings of the new scope weigh above
/// those of the old. A procedure that calls itself in tail position, with
/// arguments that weigh what its own weighed, thus runs in constant memory.
pub proof fn law_tail_call_trades_scopes(
    m: Machine,
    captured: ScopeRef,
    params: Term,
    body: Seq<Term>,
)
    requires
        m.vars.wf(),
        m.vars.has_room(),
        m.stack.len() > 0,
        m.stack.last().accum.len() > 0,
        m.stack.last().accum[0] == Term::Lambda(
            false,
            captured,
            seq![Term::Sym("lambda"@), params, Term::List(body)],
        ),
        m.vars.live(m.stack.last().vars),
        m.call().vars.is_free(m.stack.last().vars),
    ensures
        m.call().vars.memory_usage() + weight_of(m.vars.scopes[m.stack.last().vars.0 as int])
            <= m.vars.memory_usage() + weight_of(m.call().vars.scopes[m.vars.next().0 as int]),
{
    let frame = m.stack.last();
    let scope = m.vars.next();
    let tail = frame.accum.subrange(1, frame.accum.len() as int);
    let list = seq![Term::Sym("lambda"@), params, Term::List(body)];
    assert(frame.accum[0].form() == Some(list));
    assert(list.len() == 3 && list[0] == Term::Sym("lambda"@) && list[1] == params && list[2]
        == Term::List(body));
    let b0 = m.vars.new_child(captured);
    crate::variables::lemma_new_child(m.vars, captured);
    law_new_child_costs_a_handle(m.vars, captured);
    if m.vars.free.len() > 0 {
        assert(m.vars.is_free(m.vars.free[m.vars.free.len() - 1]));
    }
    assert(scope != frame.vars);
    assert(b0.live(frame.vars));
    assert(b0.holds(scope));
    assert(b0.scopes[frame.vars.0 as int] == m.vars.scopes[frame.vars.0 as int]);
    assert(Machine::params(frame.accum[0], frame.vars, tail) == tail);
    let b1 = Machine::bind(b0, scope, params, tail);
    lemma_bind_keeps_the_forest(b0, scope, params, tail);
    assert(b1.scopes[frame.vars.0 as int] == b0.scopes[frame.vars.0 as int]);
    assert(b1.live(frame.vars));
    law_free_slots_fit(b0);
    law_free_slots_fit(b1);
    lemma_weights_differ(b0, b1, b0.scopes.len(), scope.0 as int);
    assert(b1.memory_usage() == b0.memory_usage() + weight_of(b1.scopes[scope.0 as int]));
    let bound = Machine { vars: b1, ..m };
    let entered = bound.enter(scope, body);
    assert(m.call() == m.call_closure());
    assert(m.call_closure() == bound.run_body(scope, list));
    assert(bound.run_body(scope, list) == entered.release(frame.vars));
    let top = m.stack.len() - 1;
    assert(entered.stack[top].vars == scope);
    lemma_release_keeps_active_scope(entered, frame.vars, top);
    if frame.vars != Arena::root() && !entered.references(frame.vars) {
        law_release_gives_the_memory_back(entered, frame.vars);
    }
}

} // verus!
