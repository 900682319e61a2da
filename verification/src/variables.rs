//! The arena of scopes: lexical environments that are named by handles,
//! hang below one another as a forest under the root, and go back to a
//! free-list when they are removed.

use crate::number;
use crate::val::{add_capped, bytes, capped, terms, Term, Val};
use vstd::layout::size_of;
use vstd::prelude::*;
use vstd::string::StringExecFns;

verus! {

/// A handle on a scope of the arena: its index there.
#[derive(Clone, Copy, Debug, PartialEq, Eq, Hash, Structural)]
pub struct ScopeRef(pub usize);

/// A name and the value bound to it.
#[derive(Debug)]
pub struct Binding {
    pub name: String,
    pub val: Val,
}

/// A lexical environment: its own bindings, the scope around it, and
/// whether the slot stands on the free-list.
#[derive(Debug)]
pub struct Scope {
    vars: Vec<Binding>,
    parent: ScopeRef,
    free: bool,
}

/// The arena that owns every scope. Scope 0 is the root and its own parent.
pub struct VarSpace {
    scopes: Vec<Scope>,
    free_scopes: Vec<ScopeRef>,
    depths: Ghost<Seq<nat>>,
}

/// What a `Scope` stands for: its bindings in the order in which the names
/// were first bound, its parent, and whether it is free.
pub struct ScopeModel {
    pub vars: Seq<(Seq<char>, Term)>,
    pub parent: ScopeRef,
    pub free: bool,
}

/// What a `VarSpace` stands for: the scopes by index, the free-list, whose
/// last entry is handed out next, and for each scope the number of parent
/// links between it and the root.
pub struct Arena {
    pub scopes: Seq<ScopeModel>,
    pub free: Seq<ScopeRef>,
    pub depth: Seq<nat>,
}

impl View for Binding {
    type V = (Seq<char>, Term);

    open spec fn view(&self) -> (Seq<char>, Term) {
        (self.name@, self.val@)
    }
}

impl View for Scope {
    type V = ScopeModel;

    closed spec fn view(&self) -> ScopeModel {
        ScopeModel {
            vars: Seq::new(self.vars@.len(), |i: int| self.vars@[i]@),
            parent: self.parent,
            free: self.free,
        }
    }
}

impl View for VarSpace {
    type V = Arena;

    closed spec fn view(&self) -> Arena {
        Arena {
            scopes: Seq::new(self.scopes@.len(), |i: int| self.scopes@[i]@),
            free: self.free_scopes@,
            depth: self.depths@,
        }
    }
}

/// The first index below `n` at which `vars` binds `name`.
pub open spec fn find(vars: Seq<(Seq<char>, Term)>, name: Seq<char>, n: nat) -> Option<int>
    decreases n,
{
    if n == 0 {
        None
    } else {
        match find(vars, name, (n - 1) as nat) {
            Some(i) => Some(i),
            None => if vars[n - 1].0 == name {
                Some(n - 1)
            } else {
                None
            },
        }
    }
}

/// The value that `vars` binds to `name`.
pub open spec fn bound(vars: Seq<(Seq<char>, Term)>, name: Seq<char>) -> Option<Term> {
    match find(vars, name, vars.len()) {
        Some(i) => Some(vars[i].1),
        None => None,
    }
}

/// `vars` with `name` bound to `val`: in place where the name was bound, at
/// the end where it was not.
pub open spec fn put(vars: Seq<(Seq<char>, Term)>, name: Seq<char>, val: Term) -> Seq<
    (Seq<char>, Term),
> {
    match find(vars, name, vars.len()) {
        Some(i) => vars.update(i, (name, val)),
        None => vars.push((name, val)),
    }
}

/// No name is bound twice.
pub open spec fn distinct(vars: Seq<(Seq<char>, Term)>) -> bool {
    forall|i: int, j: int| 0 <= i < j < vars.len() ==> vars[i].0 != vars[j].0
}

/// What `find` finds is the first binding of the name, and it finds none
/// only where there is none.
pub proof fn lemma_find(vars: Seq<(Seq<char>, Term)>, name: Seq<char>, n: nat)
    requires
        n <= vars.len(),
    ensures
        match find(vars, name, n) {
            Some(i) => 0 <= i < n && vars[i].0 == name && forall|j: int|
                0 <= j < i ==> vars[j].0 != name,
            None => forall|j: int| 0 <= j < n ==> vars[j].0 != name,
        },
    decreases n,
{
    if n > 0 {
        lemma_find(vars, name, (n - 1) as nat);
    }
}

/// Once a prefix holds the name, every longer prefix finds it at the same index.
pub proof fn lemma_find_found(vars: Seq<(Seq<char>, Term)>, name: Seq<char>, i: int, n: nat)
    requires
        0 <= i < n <= vars.len(),
        find(vars, name, i as nat) is None,
        vars[i].0 == name,
    ensures
        find(vars, name, n) == Some(i),
    decreases n,
{
    if n > i + 1 {
        lemma_find_found(vars, name, i, (n - 1) as nat);
    }
}

/// Binding a name keeps the names distinct.
pub proof fn lemma_put_distinct(vars: Seq<(Seq<char>, Term)>, name: Seq<char>, val: Term)
    requires
        distinct(vars),
    ensures
        distinct(put(vars, name, val)),
{
    lemma_find(vars, name, vars.len());
}

/// The bindings of a list of names and values, one for one.
pub open spec fn pairs(vars: Seq<(String, Val)>) -> Seq<(Seq<char>, Term)> {
    Seq::new(vars.len(), |i: int| (vars[i].0@, vars[i].1@))
}

impl ScopeModel {
    /// A scope without bindings below `parent`.
    pub open spec fn empty(parent: ScopeRef) -> ScopeModel {
        ScopeModel { vars: Seq::empty(), parent, free: false }
    }

    /// A scope on the free-list: without bindings, below the root.
    pub open spec fn freed() -> ScopeModel {
        ScopeModel { vars: Seq::empty(), parent: Arena::root(), free: true }
    }
}

impl Arena {
    /// The handle of the root.
    pub open spec fn root() -> ScopeRef {
        ScopeRef(0)
    }

    /// The arena that holds the root alone, without a binding.
    pub open spec fn fresh() -> Arena {
        Arena { scopes: seq![ScopeModel::empty(Self::root())], free: Seq::empty(), depth: seq![0nat] }
    }

    /// Whether the handle names a slot of the arena.
    pub open spec fn holds(self, scope: ScopeRef) -> bool {
        scope.0 < self.scopes.len()
    }

    /// Whether the handle names a slot that stands on the free-list.
    pub open spec fn is_free(self, scope: ScopeRef) -> bool {
        self.holds(scope) && self.scopes[scope.0 as int].free
    }

    /// Whether the handle names a scope in use.
    pub open spec fn live(self, scope: ScopeRef) -> bool {
        self.holds(scope) && !self.scopes[scope.0 as int].free
    }

    /// The number of parent links between a scope and the root.
    pub open spec fn depth_of(self, scope: ScopeRef) -> nat {
        if scope.0 < self.depth.len() {
            self.depth[scope.0 as int]
        } else {
            0
        }
    }

    /// What holds of the slots whatever hangs where: the root exists, is in
    /// use and is its own parent; every parent is a slot of the arena; the
    /// free-list holds exactly the free slots, none twice and never the root;
    /// a free slot has no bindings and hangs below the root; no scope binds a
    /// name twice.
    pub open spec fn wf_slots(self) -> bool {
        &&& 1 <= self.scopes.len() <= usize::MAX
        &&& self.depth.len() == self.scopes.len()
        &&& self.scopes[0].parent == Self::root()
        &&& !self.scopes[0].free
        &&& forall|i: int|
            0 <= i < self.scopes.len() ==> (#[trigger] self.scopes[i]).parent.0 < self.scopes.len()
        &&& forall|k: int| 0 <= k < self.free.len() ==> self.is_free(#[trigger] self.free[k])
        &&& forall|k: int, l: int| 0 <= k < l < self.free.len() ==> self.free[k] != self.free[l]
        &&& forall|s: ScopeRef| self.is_free(s) ==> #[trigger] self.free.contains(s)
        &&& forall|i: int|
            0 <= i < self.scopes.len() && (#[trigger] self.scopes[i]).free ==> self.scopes[i]
                == ScopeModel::freed()
        &&& forall|i: int| 0 <= i < self.scopes.len() ==> distinct((#[trigger] self.scopes[i]).vars)
    }

    /// The scopes form a forest under the root: each scope but the root lies
    /// one link deeper than its parent, and nothing hangs below a free slot.
    pub open spec fn wf(self) -> bool {
        &&& self.wf_slots()
        &&& self.depth[0] == 0
        &&& forall|i: int|
            #![trigger self.depth[i]]
            0 < i < self.scopes.len() ==> self.depth[i] == self.depth[self.scopes[i].parent.0 as int]
                + 1 && !self.scopes[self.scopes[i].parent.0 as int].free
    }

    /// The parent of a scope; the root for a handle that names no slot.
    pub open spec fn parent(self, scope: ScopeRef) -> ScopeRef {
        if self.holds(scope) {
            self.scopes[scope.0 as int].parent
        } else {
            Self::root()
        }
    }

    /// Whether the way up from a scope goes on: the scope is a slot other
    /// than the root, and its parent lies less deep than itself.
    pub open spec fn climbs(self, scope: ScopeRef) -> bool {
        self.holds(scope) && scope != Self::root() && self.depth_of(self.parent(scope))
            < self.depth_of(scope)
    }

    /// The value of `name` seen from `scope`: the nearest binding on the way
    /// up to the root. In a forest the way goes on from every scope but the
    /// root.
    pub open spec fn get(self, scope: ScopeRef, name: Seq<char>) -> Option<Term>
        decreases self.depth_of(scope),
    {
        if !self.holds(scope) {
            None
        } else {
            match bound(self.scopes[scope.0 as int].vars, name) {
                Some(v) => Some(v),
                None => if self.climbs(scope) {
                    self.get(self.parent(scope), name)
                } else {
                    None
                },
            }
        }
    }

    /// The arena with `name` bound to `val` in exactly that scope. A handle
    /// that names no scope in use binds nothing.
    pub open spec fn set(self, scope: ScopeRef, name: Seq<char>, val: Term) -> Arena {
        if self.live(scope) {
            let s = self.scopes[scope.0 as int];
            Arena {
                scopes: self.scopes.update(
                    scope.0 as int,
                    ScopeModel { vars: put(s.vars, name, val), ..s },
                ),
                ..self
            }
        } else {
            self
        }
    }

    /// The arena with the first `n` of the given bindings made in `scope`,
    /// one after the other.
    pub open spec fn set_all(self, scope: ScopeRef, vars: Seq<(Seq<char>, Term)>, n: nat) -> Arena
        decreases n,
    {
        if n == 0 {
            self
        } else {
            self.set_all(scope, vars, (n - 1) as nat).set(scope, vars[n - 1].0, vars[n - 1].1)
        }
    }

    /// The handle that `new_child` returns: the last of the free-list, or the
    /// index after the last scope.
    pub open spec fn next(self) -> ScopeRef {
        if self.free.len() > 0 {
            self.free.last()
        } else {
            ScopeRef(self.scopes.len() as usize)
        }
    }

    /// The scope that a new scope hangs below: the one asked for if it is in
    /// use, else the root.
    pub open spec fn foster(self, parent: ScopeRef) -> ScopeRef {
        if self.live(parent) {
            parent
        } else {
            Self::root()
        }
    }

    /// The arena with a new empty scope below `parent`, in the slot `next()`.
    pub open spec fn new_child(self, parent: ScopeRef) -> Arena {
        let above = self.foster(parent);
        if self.free.len() > 0 {
            let slot = self.free.last();
            Arena {
                scopes: self.scopes.update(slot.0 as int, ScopeModel::empty(above)),
                free: self.free.drop_last(),
                depth: self.depth.update(slot.0 as int, self.depth_of(above) + 1),
            }
        } else {
            Arena {
                scopes: self.scopes.push(ScopeModel::empty(above)),
                free: self.free,
                depth: self.depth.push(self.depth_of(above) + 1),
            }
        }
    }

    /// Whether `ancestor` is `scope` or one of the scopes around it.
    pub open spec fn scope_has_ancestor(self, scope: ScopeRef, ancestor: ScopeRef) -> bool
        decreases self.depth_of(scope),
    {
        if scope == ancestor {
            true
        } else if self.climbs(scope) {
            self.scope_has_ancestor(self.parent(scope), ancestor)
        } else {
            false
        }
    }

    /// Whether the value holds a closure, at any depth, that captured `scope`
    /// or a scope below it.
    pub open spec fn val_has_ancestor(self, scope: ScopeRef, val: Term) -> bool
        decreases val,
    {
        match val {
            Term::Lambda(_, captured, l) => self.scope_has_ancestor(captured, scope)
                || self.vals_have_ancestor(scope, l),
            Term::List(l) => self.vals_have_ancestor(scope, l),
            _ => false,
        }
    }

    /// Whether one of the values holds such a closure.
    pub open spec fn vals_have_ancestor(self, scope: ScopeRef, vals: Seq<Term>) -> bool
        decreases vals,
    {
        if vals.len() == 0 {
            false
        } else {
            self.val_has_ancestor(scope, vals.last()) || self.vals_have_ancestor(
                scope,
                vals.drop_last(),
            )
        }
    }

    /// The number of scopes that are not on the free-list.
    pub open spec fn in_use(self) -> nat {
        if self.scopes.len() >= self.free.len() {
            (self.scopes.len() - self.free.len()) as nat
        } else {
            0
        }
    }

    /// The measure of the first `n` bindings: the bytes of each name and the
    /// measure of each value.
    pub open spec fn vars_weight(vars: Seq<(Seq<char>, Term)>, n: nat) -> nat
        decreases n,
    {
        if n == 0 {
            0
        } else {
            Self::vars_weight(vars, (n - 1) as nat) + bytes(vars[n - 1].0) + vars[n - 1].1.weight()
        }
    }

    /// The measure of the bindings of the first `n` scopes.
    pub open spec fn scopes_weight(self, n: nat) -> nat
        decreases n,
    {
        if n == 0 {
            0
        } else {
            self.scopes_weight((n - 1) as nat) + Self::vars_weight(
                self.scopes[n - 1].vars,
                self.scopes[n - 1].vars.len(),
            )
        }
    }

    /// A measure of the memory that the arena takes: the size of a handle for
    /// each scope that is not free, and the measure of every binding.
    pub open spec fn memory_usage(self) -> nat {
        size_of::<ScopeRef>() * self.in_use() + self.scopes_weight(self.scopes.len())
    }

    /// The lines that describe the first `n` bindings of a scope: two spaces,
    /// the name, ` = `, and the printed form of the value. A native procedure
    /// gets no line.
    pub open spec fn describe_vars(vars: Seq<(Seq<char>, Term)>, n: nat) -> Seq<char>
        decreases n,
    {
        if n == 0 {
            Seq::empty()
        } else {
            let before = Self::describe_vars(vars, (n - 1) as nat);
            if vars[n - 1].1 is Builtin {
                before
            } else {
                before + "  "@ + vars[n - 1].0 + " = "@ + vars[n - 1].1.text() + "\n"@
            }
        }
    }

    /// The lines that describe the first `n` scopes: for each its index,
    /// `: -> `, the index of its parent, and then its bindings.
    pub open spec fn describe_scopes(self, n: nat) -> Seq<char>
        decreases n,
    {
        if n == 0 {
            Seq::empty()
        } else {
            let scope = self.scopes[n - 1];
            self.describe_scopes((n - 1) as nat) + number::decimal((n - 1) as nat) + ": -> "@
                + number::decimal(scope.parent.0 as nat) + "\n"@ + Self::describe_vars(
                scope.vars,
                scope.vars.len(),
            )
        }
    }

    /// The description of the arena, scope by scope.
    pub open spec fn describe(self) -> Seq<char> {
        self.describe_scopes(self.scopes.len())
    }

    /// Whether a binding of a scope that does not stand below `scope` holds a
    /// closure that captured `scope` or a scope below it.
    pub open spec fn binds_reference(self, scope: ScopeRef) -> bool {
        exists|i: int, j: int|
            0 <= i < self.scopes.len() && 0 <= j < self.scopes[i].vars.len()
                && !self.scope_has_ancestor(ScopeRef(i as usize), scope) && self.val_has_ancestor(
                scope,
                (#[trigger] self.scopes[i].vars[j]).1,
            )
    }

    /// The arena with the scope emptied, hung below the root and put on the
    /// free-list. The root, a handle that names no slot and a slot that is
    /// free already are left alone.
    pub open spec fn remove_inner(self, scope: ScopeRef) -> Arena {
        if scope != Self::root() && self.live(scope) {
            Arena {
                scopes: self.scopes.update(scope.0 as int, ScopeModel::freed()),
                free: self.free.push(scope),
                depth: self.depth.update(scope.0 as int, 1),
            }
        } else {
            self
        }
    }

    /// The scopes with an index below `n` that stand below `scope`, in the
    /// order of their indices.
    pub open spec fn descendants(self, scope: ScopeRef, n: nat) -> Seq<ScopeRef>
        decreases n,
    {
        if n == 0 {
            Seq::empty()
        } else {
            let rest = self.descendants(scope, (n - 1) as nat);
            let s = ScopeRef((n - 1) as usize);
            if s != scope && self.scope_has_ancestor(s, scope) {
                rest.push(s)
            } else {
                rest
            }
        }
    }

    /// The arena with the first `n` of the listed scopes removed.
    pub open spec fn remove_all(self, list: Seq<ScopeRef>, n: nat) -> Arena
        decreases n,
    {
        if n == 0 {
            self
        } else {
            self.remove_all(list, (n - 1) as nat).remove_inner(list[n - 1])
        }
    }

    /// The arena with `scope` and every scope below it removed.
    pub open spec fn remove(self, scope: ScopeRef) -> Arena {
        let below = self.descendants(scope, self.scopes.len());
        self.remove_inner(scope).remove_all(below, below.len())
    }

    /// Whether `remove` takes a scope out of use: it is in use, is not the
    /// root, and is `scope` or stands below it.
    pub open spec fn removes(self, scope: ScopeRef, s: ScopeRef) -> bool {
        s != Self::root() && self.live(s) && self.scope_has_ancestor(s, scope)
    }

    /// Whether the arena has room for a further scope.
    pub open spec fn has_room(self) -> bool {
        self.free.len() > 0 || self.scopes.len() < usize::MAX
    }
}

/// Whether a handle stands among the first `n` of the listed.
pub open spec fn listed(list: Seq<ScopeRef>, n: nat, s: ScopeRef) -> bool {
    exists|k: int| 0 <= k < n && k < list.len() && list[k] == s
}

/// Taking a slot out of use keeps what holds of the slots.
pub proof fn lemma_remove_inner(a: Arena, scope: ScopeRef)
    requires
        a.wf_slots(),
    ensures
        a.remove_inner(scope).wf_slots(),
{
    let b = a.remove_inner(scope);
    if scope != Arena::root() && a.live(scope) {
        assert forall|k: int| 0 <= k < b.free.len() implies b.is_free(#[trigger] b.free[k]) by {
            if k < a.free.len() {
                assert(a.is_free(a.free[k]));
            }
        }
        assert forall|k: int, l: int| 0 <= k < l < b.free.len() implies b.free[k] != b.free[l] by {
            if l == a.free.len() {
                assert(a.is_free(a.free[k]));
            }
        }
        assert forall|s: ScopeRef| b.is_free(s) implies #[trigger] b.free.contains(s) by {
            if s == scope {
                assert(b.free[a.free.len() as int] == scope);
            } else {
                assert(a.is_free(s));
                assert(a.free.contains(s));
                let k = choose|k: int| 0 <= k < a.free.len() && a.free[k] == s;
                assert(b.free[k] == s);
            }
        }
        assert forall|i: int| 0 <= i < b.scopes.len() implies distinct(
            (#[trigger] b.scopes[i]).vars,
        ) && b.scopes[i].parent.0 < b.scopes.len() && (b.scopes[i].free ==> b.scopes[i]
            == ScopeModel::freed()) by {
            if i != scope.0 {
                assert(distinct(a.scopes[i].vars));
                assert(a.scopes[i].parent.0 < a.scopes.len());
                assert(a.scopes[i].free ==> a.scopes[i] == ScopeModel::freed());
            }
        }
    }
}

/// Removing listed scopes one by one frees exactly those of them that were
/// in use, and leaves every other slot as it was.
#[verifier::rlimit(30)]
pub proof fn lemma_remove_all(a: Arena, list: Seq<ScopeRef>, n: nat)
    requires
        a.wf_slots(),
        n <= list.len(),
    ensures
        a.remove_all(list, n).wf_slots(),
        a.remove_all(list, n).scopes.len() == a.scopes.len(),
        forall|s: ScopeRef|
            #![trigger a.remove_all(list, n).scopes[s.0 as int]]
            a.holds(s) ==> a.remove_all(list, n).scopes[s.0 as int] == (if s != Arena::root()
                && a.live(s) && listed(list, n, s) {
                ScopeModel::freed()
            } else {
                a.scopes[s.0 as int]
            }) && a.remove_all(list, n).depth[s.0 as int] == (if s != Arena::root() && a.live(s)
                && listed(list, n, s) {
                1nat
            } else {
                a.depth[s.0 as int]
            }),
    decreases n,
{
    if n > 0 {
        lemma_remove_all(a, list, (n - 1) as nat);
        let before = a.remove_all(list, (n - 1) as nat);
        let after = before.remove_inner(list[n - 1]);
        lemma_remove_inner(before, list[n - 1]);
        assert forall|s: ScopeRef|
            #![trigger a.remove_all(list, n).scopes[s.0 as int]]
            a.holds(s) implies after.scopes[s.0 as int] == (if s != Arena::root() && a.live(s)
            && listed(list, n, s) {
            ScopeModel::freed()
        } else {
            a.scopes[s.0 as int]
        }) && after.depth[s.0 as int] == (if s != Arena::root() && a.live(s) && listed(list, n, s) {
            1nat
        } else {
            a.depth[s.0 as int]
        }) by {
            let earlier = listed(list, (n - 1) as nat, s);
            assert(before.scopes[s.0 as int] == (if s != Arena::root() && a.live(s) && earlier {
                ScopeModel::freed()
            } else {
                a.scopes[s.0 as int]
            }));
            assert(before.depth[s.0 as int] == (if s != Arena::root() && a.live(s) && earlier {
                1nat
            } else {
                a.depth[s.0 as int]
            }));
            if earlier {
                let k = choose|k: int| 0 <= k < n - 1 && k < list.len() && list[k] == s;
                assert(0 <= k < n && list[k] == s);
            }
            if list[n - 1] == s {
                assert(0 <= n - 1 < n && list[n - 1] == s);
            }
            if listed(list, n, s) {
                let k = choose|k: int| 0 <= k < n && k < list.len() && list[k] == s;
                if k < n - 1 {
                    assert(earlier);
                }
            }
            assert(a.scopes[s.0 as int].free ==> a.scopes[s.0 as int] == ScopeModel::freed());
        }
    }
}

/// The scopes that stand below `scope` are listed among the descendants, and
/// nothing else is.
pub proof fn lemma_descendants(a: Arena, scope: ScopeRef, n: nat, s: ScopeRef)
    requires
        n <= usize::MAX + 1,
    ensures
        listed(a.descendants(scope, n), a.descendants(scope, n).len(), s) <==> (s.0 < n && s
            != scope && a.scope_has_ancestor(s, scope)),
    decreases n,
{
    if n > 0 {
        lemma_descendants(a, scope, (n - 1) as nat, s);
        let rest = a.descendants(scope, (n - 1) as nat);
        let last = ScopeRef((n - 1) as usize);
        let all = a.descendants(scope, n);
        if listed(rest, rest.len(), s) {
            let k = choose|k: int| 0 <= k < rest.len() && rest[k] == s;
            assert(all[k] == s);
        }
        if last != scope && a.scope_has_ancestor(last, scope) {
            assert(all == rest.push(last));
            if listed(all, all.len(), s) {
                let k = choose|k: int| 0 <= k < all.len() && all[k] == s;
                if k < rest.len() {
                    assert(rest[k] == s);
                }
            }
            if s == last {
                assert(all[rest.len() as int] == s);
            }
        }
    }
}

/// Removing a scope with every scope below it keeps the forest: the slots
/// that go out of use are exactly the scope and those below it, every other
/// slot stays as it was, and nothing is left hanging below a free slot.
#[verifier::rlimit(30)]
pub proof fn lemma_remove(a: Arena, scope: ScopeRef)
    requires
        a.wf(),
    ensures
        a.remove(scope).wf(),
        a.remove(scope).scopes.len() == a.scopes.len(),
        forall|s: ScopeRef|
            #![trigger a.remove(scope).scopes[s.0 as int]]
            a.holds(s) ==> a.remove(scope).scopes[s.0 as int] == (if a.removes(scope, s) {
                ScopeModel::freed()
            } else {
                a.scopes[s.0 as int]
            }) && (!a.removes(scope, s) ==> a.remove(scope).depth[s.0 as int]
                == a.depth[s.0 as int]),
{
    let first = a.remove_inner(scope);
    lemma_remove_inner(a, scope);
    let below = a.descendants(scope, a.scopes.len());
    lemma_remove_all(first, below, below.len());
    let b = a.remove(scope);
    assert forall|s: ScopeRef|
        #![trigger a.remove(scope).scopes[s.0 as int]]
        a.holds(s) implies b.scopes[s.0 as int] == (if a.removes(scope, s) {
        ScopeModel::freed()
    } else {
        a.scopes[s.0 as int]
    }) && (!a.removes(scope, s) ==> b.depth[s.0 as int] == a.depth[s.0 as int]) by {
        lemma_descendants(a, scope, a.scopes.len(), s);
        assert(a.scopes[s.0 as int].free ==> a.scopes[s.0 as int] == ScopeModel::freed());
        assert(first.holds(s));
        assert(b.scopes[s.0 as int] == (if s != Arena::root() && first.live(s) && listed(
            below,
            below.len(),
            s,
        ) {
            ScopeModel::freed()
        } else {
            first.scopes[s.0 as int]
        }));
        assert(b.depth[s.0 as int] == (if s != Arena::root() && first.live(s) && listed(
            below,
            below.len(),
            s,
        ) {
            1nat
        } else {
            first.depth[s.0 as int]
        }));
    }
    assert(b.scopes.len() == a.scopes.len());
    assert forall|i: int| #![trigger b.depth[i]] 0 < i < b.scopes.len() implies b.depth[i]
        == b.depth[b.scopes[i].parent.0 as int] + 1 && !b.scopes[b.scopes[i].parent.0 as int].free by {
        let s = ScopeRef(i as usize);
        let p = a.scopes[i].parent;
        assert(0 < i < a.scopes.len());
        assert(a.depth[i] == a.depth[a.scopes[i].parent.0 as int] + 1);
        assert(a.depth[i] == a.depth[p.0 as int] + 1 && !a.scopes[p.0 as int].free);
        assert(a.holds(s) && a.holds(p) && a.holds(Arena::root()));
        assert(b.scopes[s.0 as int] == (if a.removes(scope, s) {
            ScopeModel::freed()
        } else {
            a.scopes[s.0 as int]
        }));
        assert(b.scopes[p.0 as int] == (if a.removes(scope, p) {
            ScopeModel::freed()
        } else {
            a.scopes[p.0 as int]
        }));
        assert(b.scopes[Arena::root().0 as int] == a.scopes[0]);
        assert(b.depth[Arena::root().0 as int] == a.depth[0]);
        if a.removes(scope, s) {
        } else if a.scopes[i].free {
            assert(a.scopes[i] == ScopeModel::freed());
        } else {
            if a.removes(scope, p) {
                assert(a.climbs(s));
                assert(a.scope_has_ancestor(s, scope));
            }
        }
    }
    assert(b.depth[0] == 0) by {
        assert(a.holds(Arena::root()));
        assert(b.scopes[Arena::root().0 as int] == a.scopes[0]);
    }
}

impl Clone for Binding {
    /// A copy that binds the same name to the same value.
    fn clone(&self) -> (r: Binding)
        ensures
            r@ == self@,
    {
        Binding { name: self.name.clone(), val: self.val.clone() }
    }
}

impl Clone for Scope {
    /// A copy with the same bindings below the same parent.
    fn clone(&self) -> (r: Scope)
        ensures
            r@ == self@,
    {
        let mut vars: Vec<Binding> = Vec::new();
        let mut i: usize = 0;
        while i < self.vars.len()
            invariant
                i <= self.vars.len(),
                vars.len() == i,
                forall|j: int| 0 <= j < i ==> vars@[j]@ == self.vars@[j]@,
            decreases self.vars.len() - i,
        {
            vars.push(self.vars[i].clone());
            i += 1;
        }
        let r = Scope { vars, parent: self.parent, free: self.free };
        assert(r@.vars =~= self@.vars);
        r
    }
}

impl Clone for VarSpace {
    /// A copy that holds the same scopes and the same free-list.
    fn clone(&self) -> (r: VarSpace)
        ensures
            r@ == self@,
    {
        let mut scopes: Vec<Scope> = Vec::new();
        let mut i: usize = 0;
        while i < self.scopes.len()
            invariant
                i <= self.scopes.len(),
                scopes.len() == i,
                forall|j: int| 0 <= j < i ==> scopes@[j]@ == self.scopes@[j]@,
            decreases self.scopes.len() - i,
        {
            scopes.push(self.scopes[i].clone());
            i += 1;
        }
        let mut free_scopes: Vec<ScopeRef> = Vec::new();
        let mut k: usize = 0;
        while k < self.free_scopes.len()
            invariant
                k <= self.free_scopes.len(),
                free_scopes@ == self.free_scopes@.subrange(0, k as int),
            decreases self.free_scopes.len() - k,
        {
            free_scopes.push(self.free_scopes[k]);
            assert(self.free_scopes@.subrange(0, k + 1) =~= self.free_scopes@.subrange(
                0,
                k as int,
            ).push(self.free_scopes@[k as int]));
            k += 1;
        }
        assert(free_scopes@ =~= self.free_scopes@);
        let r = VarSpace { scopes, free_scopes, depths: self.depths };
        assert(r@.scopes =~= self@.scopes);
        r
    }
}

impl Scope {
    /// The index at which the scope binds `name`.
    fn position(&self, name: &String) -> (r: Option<usize>)
        ensures
            match r {
                Some(i) => i < self.vars.len() && find(self@.vars, name@, self@.vars.len()) == Some(
                    i as int,
                ),
                None => find(self@.vars, name@, self@.vars.len()) is None,
            },
    {
        let mut i: usize = 0;
        while i < self.vars.len()
            invariant
                i <= self.vars.len(),
                find(self@.vars, name@, i as nat) is None,
            decreases self.vars.len() - i,
        {
            if self.vars[i].name == *name {
                proof {
                    lemma_find_found(self@.vars, name@, i as int, self@.vars.len());
                }
                return Some(i);
            }
            i += 1;
        }
        None
    }

    /// The measure of the bindings of the scope, held at the largest `usize`.
    fn weight(&self) -> (r: usize)
        ensures
            r == capped(Arena::vars_weight(self@.vars, self@.vars.len())),
    {
        let mut size: usize = 0;
        let mut j: usize = 0;
        while j < self.vars.len()
            invariant
                j <= self.vars.len(),
                size == capped(Arena::vars_weight(self@.vars, j as nat)),
            decreases self.vars.len() - j,
        {
            size = add_capped(size, self.vars[j].name.as_str().len());
            size = add_capped(size, self.vars[j].val.memory_usage());
            j += 1;
        }
        size
    }

    /// The lines that describe the bindings of the scope.
    fn describe(&self) -> (r: String)
        ensures
            r@ == Arena::describe_vars(self@.vars, self@.vars.len()),
    {
        let mut s = String::new();
        let mut j: usize = 0;
        while j < self.vars.len()
            invariant
                j <= self.vars.len(),
                s@ == Arena::describe_vars(self@.vars, j as nat),
            decreases self.vars.len() - j,
        {
            let is_native = matches!(&self.vars[j].val, Val::Builtin(_, _));
            if !is_native {
                let ghost before = s@;
                s.append("  ");
                s.append(self.vars[j].name.as_str());
                s.append(" = ");
                let shown = self.vars[j].val.to_string();
                s.append(shown.as_str());
                s.append("\n");
                assert(s@ =~= before + "  "@ + self@.vars[j as int].0 + " = "@
                    + self@.vars[j as int].1.text() + "\n"@);
            }
            j += 1;
        }
        s
    }
}

impl VarSpace {
    /// An arena that holds the root alone.
    pub fn new() -> (r: VarSpace)
        ensures
            r@ == Arena::fresh(),
            r@.wf(),
    {
        let mut scopes: Vec<Scope> = Vec::new();
        scopes.push(Scope { vars: Vec::new(), parent: ScopeRef(0), free: false });
        let ghost depth = Arena::fresh().depth;
        let r = VarSpace { scopes, free_scopes: Vec::new(), depths: Ghost(depth) };
        assert(r.scopes@[0]@.vars =~= Seq::empty());
        assert(r@.scopes =~= Arena::fresh().scopes);
        assert(r@.free =~= Arena::fresh().free);
        r
    }

    /// The number of slots of the arena, free ones included.
    pub fn len(&self) -> (r: usize)
        ensures
            r == self@.scopes.len(),
    {
        self.scopes.len()
    }

    /// The handle of the root.
    pub fn root(&self) -> (r: ScopeRef)
        ensures
            r == Arena::root(),
    {
        ScopeRef(0)
    }

    /// The parent of a scope.
    pub fn parent(&self, scope: ScopeRef) -> (r: ScopeRef)
        ensures
            r == self@.parent(scope),
    {
        if scope.0 < self.scopes.len() {
            self.scopes[scope.0].parent
        } else {
            ScopeRef(0)
        }
    }

    /// Whether the handle names a slot that stands on the free-list.
    pub fn is_free(&self, scope: ScopeRef) -> (r: bool)
        ensures
            r == self@.is_free(scope),
    {
        scope.0 < self.scopes.len() && self.scopes[scope.0].free
    }

    /// Whether the handle names a scope in use.
    pub fn is_live(&self, scope: ScopeRef) -> (r: bool)
        ensures
            r == self@.live(scope),
    {
        scope.0 < self.scopes.len() && !self.scopes[scope.0].free
    }

    /// Makes an empty scope below `parent`, or below the root where `parent`
    /// names no scope in use, and returns its handle. A slot of the free-list
    /// is used again before the arena grows.
    pub fn new_child(&mut self, parent: ScopeRef) -> (r: ScopeRef)
        requires
            old(self)@.wf(),
        ensures
            final(self)@ == old(self)@.new_child(parent),
            r == old(self)@.next(),
            final(self)@.wf(),
    {
        let above = if self.is_live(parent) {
            parent
        } else {
            ScopeRef(0)
        };
        let ghost depth = self@.depth_of(above) + 1;
        if self.free_scopes.len() > 0 {
            let slot = self.free_scopes.pop().unwrap();
            assert(slot == old(self)@.free.last());
            self.scopes[slot.0] = Scope { vars: Vec::new(), parent: above, free: false };
            let ghost deeper = self.depths@.update(slot.0 as int, depth);
            self.depths = Ghost(deeper);
            assert(self.scopes@[slot.0 as int]@.vars =~= Seq::empty());
            assert(self@.scopes =~= old(self)@.new_child(parent).scopes);
            assert(self@.free =~= old(self)@.new_child(parent).free);
            proof {
                lemma_new_child(old(self)@, parent);
            }
            slot
        } else {
            let slot = ScopeRef(self.scopes.len());
            self.scopes.push(Scope { vars: Vec::new(), parent: above, free: false });
            let ghost deeper = self.depths@.push(depth);
            self.depths = Ghost(deeper);
            assert(self.scopes@[slot.0 as int]@.vars =~= Seq::empty());
            assert(self@.scopes =~= old(self)@.new_child(parent).scopes);
            proof {
                assert(old(self)@.scopes.len() < self.scopes.len());
                lemma_new_child(old(self)@, parent);
            }
            slot
        }
    }

    /// Looks `var` up from `scope`: the nearest binding on the way up to the
    /// root, or none.
    pub fn get(&self, scope: ScopeRef, var: &str) -> (r: Option<&Val>)
        requires
            self@.wf(),
        ensures
            match r {
                Some(v) => self@.get(scope, var@) == Some(v@),
                None => self@.get(scope, var@) is None,
            },
    {
        let name = var.to_owned();
        let mut s = scope;
        loop
            invariant
                self@.wf(),
                name@ == var@,
                self@.get(scope, var@) == self@.get(s, var@),
            decreases self@.depth_of(s),
        {
            if s.0 >= self.scopes.len() {
                return None;
            }
            match self.scopes[s.0].position(&name) {
                Some(i) => {
                    return Some(&self.scopes[s.0].vars[i].val);
                },
                None => {},
            }
            if s.0 == 0 {
                return None;
            }
            assert(self@.depth[s.0 as int] == self@.depth[self@.scopes[s.0 as int].parent.0 as int]
                + 1);
            s = self.scopes[s.0].parent;
        }
    }

    /// Binds `var` to `val` in exactly that scope, over an earlier binding of
    /// the name if there is one. A handle that names no scope in use binds
    /// nothing.
    pub fn set(&mut self, scope: ScopeRef, var: &str, val: Val)
        requires
            old(self)@.wf(),
        ensures
            final(self)@ == old(self)@.set(scope, var@, val@),
            final(self)@.wf(),
    {
        if self.is_live(scope) {
            let name = var.to_owned();
            let ghost before = self.scopes@[scope.0 as int]@.vars;
            proof {
                assert(distinct(self@.scopes[scope.0 as int].vars));
                lemma_put_distinct(before, var@, val@);
                lemma_set(self@, scope, var@, val@);
            }
            match self.scopes[scope.0].position(&name) {
                Some(i) => {
                    proof {
                        lemma_find(before, var@, before.len());
                    }
                    self.scopes[scope.0].vars[i] = Binding { name, val };
                },
                None => {
                    self.scopes[scope.0].vars.push(Binding { name, val });
                },
            }
            assert(self.scopes@[scope.0 as int]@.vars =~= put(before, var@, val@));
            assert(self@.scopes =~= old(self)@.set(scope, var@, val@).scopes);
        }
    }

    /// Makes every binding of the list in `scope`, one after the other.
    pub fn set_all(&mut self, scope: ScopeRef, vars: Vec<(String, Val)>)
        requires
            old(self)@.wf(),
        ensures
            final(self)@ == old(self)@.set_all(scope, pairs(vars@), vars@.len()),
            final(self)@.wf(),
    {
        let mut i: usize = 0;
        while i < vars.len()
            invariant
                i <= vars.len(),
                self@.wf(),
                self@ == old(self)@.set_all(scope, pairs(vars@), i as nat),
            decreases vars.len() - i,
        {
            self.set(scope, vars[i].0.as_str(), vars[i].1.clone());
            i += 1;
        }
    }

    /// Whether `ancestor` is `scope` or one of the scopes around it.
    pub fn scope_has_ancestor(&self, scope: ScopeRef, ancestor: ScopeRef) -> (r: bool)
        requires
            self@.wf(),
        ensures
            r == self@.scope_has_ancestor(scope, ancestor),
    {
        let mut s = scope;
        loop
            invariant
                self@.wf(),
                self@.scope_has_ancestor(scope, ancestor) == self@.scope_has_ancestor(s, ancestor),
            decreases self@.depth_of(s),
        {
            if s == ancestor {
                return true;
            }
            if s.0 == 0 || s.0 >= self.scopes.len() {
                return false;
            }
            assert(self@.depth[s.0 as int] == self@.depth[self@.scopes[s.0 as int].parent.0 as int]
                + 1);
            s = self.scopes[s.0].parent;
        }
    }

    /// Whether one of the values holds a closure that captured `scope` or a
    /// scope below it.
    pub fn vals_have_ancestor(&self, scope: ScopeRef, vals: &Vec<Val>) -> (r: bool)
        requires
            self@.wf(),
        ensures
            r == self@.vals_have_ancestor(scope, terms(vals@)),
        decreases vals,
    {
        let mut i: usize = vals.len();
        assert(terms(vals@).subrange(0, i as int) =~= terms(vals@));
        while i > 0
            invariant
                i <= vals.len(),
                self@.wf(),
                self@.vals_have_ancestor(scope, terms(vals@)) == self@.vals_have_ancestor(
                    scope,
                    terms(vals@).subrange(0, i as int),
                ),
            decreases i,
        {
            let ghost prefix = terms(vals@).subrange(0, i as int);
            assert(prefix.drop_last() =~= terms(vals@).subrange(0, i - 1));
            assert(prefix.last() == vals@[i - 1]@);
            i -= 1;
            if self.val_has_ancestor(scope, &vals[i]) {
                return true;
            }
        }
        false
    }

    /// Whether the value holds a closure, at any depth, that captured `scope`
    /// or a scope below it.
    pub fn val_has_ancestor(&self, scope: ScopeRef, val: &Val) -> (r: bool)
        requires
            self@.wf(),
        ensures
            r == self@.val_has_ancestor(scope, val@),
        decreases val,
    {
        match val {
            Val::Lambda(is_macro, captured, list) => {
                proof {
                    crate::val::lemma_lambda_view(*is_macro, *captured, *list);
                }
                if self.scope_has_ancestor(*captured, scope) {
                    return true;
                }
                self.vals_have_ancestor(scope, list)
            },
            Val::List(list) => {
                proof {
                    crate::val::lemma_list_view(*list);
                }
                self.vals_have_ancestor(scope, list)
            },
            _ => false,
        }
    }

    /// Whether a binding of a scope that does not stand below `scope` holds a
    /// closure that captured `scope` or a scope below it.
    pub fn binds_reference(&self, scope: ScopeRef) -> (r: bool)
        requires
            self@.wf(),
        ensures
            r == self@.binds_reference(scope),
    {
        let mut i: usize = 0;
        while i < self.scopes.len()
            invariant
                i <= self.scopes.len(),
                self@.wf(),
                forall|a: int, b: int|
                    0 <= a < i && 0 <= b < self@.scopes[a].vars.len() ==> !(
                    !self@.scope_has_ancestor(ScopeRef(a as usize), scope)
                        && self@.val_has_ancestor(scope, (#[trigger] self@.scopes[a].vars[b]).1)),
            decreases self.scopes.len() - i,
        {
            if !self.scope_has_ancestor(ScopeRef(i), scope) {
                let mut j: usize = 0;
                while j < self.scopes[i].vars.len()
                    invariant
                        i < self.scopes.len(),
                        j <= self.scopes[i as int].vars.len(),
                        self@.wf(),
                        !self@.scope_has_ancestor(ScopeRef(i), scope),
                        forall|b: int|
                            0 <= b < j ==> !self@.val_has_ancestor(
                                scope,
                                (#[trigger] self@.scopes[i as int].vars[b]).1,
                            ),
                    decreases self.scopes[i as int].vars.len() - j,
                {
                    if self.val_has_ancestor(scope, &self.scopes[i].vars[j].val) {
                        assert(self@.val_has_ancestor(scope, self@.scopes[i as int].vars[j as int].1));
                        return true;
                    }
                    j += 1;
                }
            }
            i += 1;
        }
        false
    }

    /// Empties the scope, hangs it below the root and puts it on the
    /// free-list. The root, a handle that names no slot and a slot that is
    /// free already are left alone. The scopes that hung below it hang below
    /// a free slot afterwards: `remove` takes them along.
    pub fn remove_inner(&mut self, scope: ScopeRef)
        requires
            old(self)@.wf_slots(),
        ensures
            final(self)@ == old(self)@.remove_inner(scope),
            final(self)@.wf_slots(),
    {
        proof {
            lemma_remove_inner(self@, scope);
        }
        if scope.0 != 0 && self.is_live(scope) {
            self.scopes[scope.0] = Scope { vars: Vec::new(), parent: ScopeRef(0), free: true };
            self.free_scopes.push(scope);
            let ghost shallow = self.depths@.update(scope.0 as int, 1);
            self.depths = Ghost(shallow);
            assert(self.scopes@[scope.0 as int]@.vars =~= Seq::empty());
            assert(self@.scopes =~= old(self)@.remove_inner(scope).scopes);
        }
    }

    /// Removes the scope and every scope below it.
    pub fn remove(&mut self, scope: ScopeRef)
        requires
            old(self)@.wf(),
        ensures
            final(self)@ == old(self)@.remove(scope),
            final(self)@.wf(),
    {
        let mut below: Vec<ScopeRef> = Vec::new();
        let mut i: usize = 0;
        while i < self.scopes.len()
            invariant
                i <= self.scopes.len(),
                *self == *old(self),
                self@.wf(),
                below@ == self@.descendants(scope, i as nat),
            decreases self.scopes.len() - i,
        {
            let s = ScopeRef(i);
            if s != scope && self.scope_has_ancestor(s, scope) {
                below.push(s);
            }
            i += 1;
        }
        self.remove_inner(scope);
        let mut k: usize = 0;
        while k < below.len()
            invariant
                k <= below.len(),
                self@.wf_slots(),
                self@ == old(self)@.remove_inner(scope).remove_all(below@, k as nat),
            decreases below.len() - k,
        {
            self.remove_inner(below[k]);
            k += 1;
        }
        proof {
            lemma_remove(old(self)@, scope);
        }
    }

    /// A measure of the memory that the arena takes, held at the largest
    /// `usize`.
    pub fn memory_usage(&self) -> (r: usize)
        ensures
            r == capped(self@.memory_usage()),
    {
        let in_use: usize = if self.scopes.len() >= self.free_scopes.len() {
            self.scopes.len() - self.free_scopes.len()
        } else {
            0
        };
        let handle = core::mem::size_of::<ScopeRef>();
        let mut size: usize = match handle.checked_mul(in_use) {
            Some(v) => v,
            None => usize::MAX,
        };
        assert(size == capped(size_of::<ScopeRef>() * self@.in_use()));
        let mut i: usize = 0;
        while i < self.scopes.len()
            invariant
                i <= self.scopes.len(),
                size == capped(size_of::<ScopeRef>() * self@.in_use() + self@.scopes_weight(i as nat)),
            decreases self.scopes.len() - i,
        {
            size = add_capped(size, self.scopes[i].weight());
            i += 1;
        }
        size
    }

    /// A description of the arena: each scope with its parent and its
    /// bindings, the native procedures left out.
    pub fn describe(&self) -> (r: String)
        ensures
            r@ == self@.describe(),
    {
        let mut s = String::new();
        let mut i: usize = 0;
        while i < self.scopes.len()
            invariant
                i <= self.scopes.len(),
                s@ == self@.describe_scopes(i as nat),
            decreases self.scopes.len() - i,
        {
            let ghost before = s@;
            let index = number::index_text(i);
            s.append(index.as_str());
            s.append(": -> ");
            let parent = number::index_text(self.scopes[i].parent.0);
            s.append(parent.as_str());
            s.append("\n");
            let vars = self.scopes[i].describe();
            s.append(vars.as_str());
            assert(s@ =~= before + number::decimal(i as nat) + ": -> "@ + number::decimal(
                self@.scopes[i as int].parent.0 as nat,
            ) + "\n"@ + Arena::describe_vars(
                self@.scopes[i as int].vars,
                self@.scopes[i as int].vars.len(),
            ));
            i += 1;
        }
        s
    }
}

/// A new scope keeps the forest.
#[verifier::rlimit(30)]
pub proof fn lemma_new_child(a: Arena, parent: ScopeRef)
    requires
        a.wf(),
        a.has_room(),
    ensures
        a.new_child(parent).wf(),
{
    let b = a.new_child(parent);
    let above = a.foster(parent);
    let slot = a.next();
    if a.free.len() > 0 {
        let last = a.free.len() - 1;
        assert(a.free[last] == slot);
        assert(a.is_free(a.free[last]));
        assert(above != slot);
        assert forall|k: int| 0 <= k < b.free.len() implies b.is_free(#[trigger] b.free[k]) by {
            assert(b.free[k] == a.free[k]);
            assert(a.is_free(a.free[k]));
            assert(a.free[k] != a.free[last]);
        }
        assert forall|k: int, l: int| 0 <= k < l < b.free.len() implies b.free[k] != b.free[l] by {
            assert(b.free[k] == a.free[k]);
            assert(b.free[l] == a.free[l]);
        }
        assert forall|s: ScopeRef| b.is_free(s) implies #[trigger] b.free.contains(s) by {
            assert(s != slot);
            assert(a.is_free(s));
            assert(a.free.contains(s));
            let k = choose|k: int| 0 <= k < a.free.len() && a.free[k] == s;
            assert(k != last);
            assert(b.free[k] == s);
        }
        assert forall|i: int| 0 <= i < b.scopes.len() implies distinct(
            (#[trigger] b.scopes[i]).vars,
        ) && b.scopes[i].parent.0 < b.scopes.len() && (b.scopes[i].free ==> b.scopes[i]
            == ScopeModel::freed()) by {
            if i != slot.0 {
                assert(distinct(a.scopes[i].vars));
                assert(a.scopes[i].parent.0 < a.scopes.len());
                assert(a.scopes[i].free ==> a.scopes[i] == ScopeModel::freed());
            }
        }
        assert forall|i: int| #![trigger b.depth[i]] 0 < i < b.scopes.len() implies b.depth[i]
            == b.depth[b.scopes[i].parent.0 as int] + 1
            && !b.scopes[b.scopes[i].parent.0 as int].free by {
            if i != slot.0 {
                let p = a.scopes[i].parent;
                assert(a.depth[i] == a.depth[a.scopes[i].parent.0 as int] + 1);
                assert(a.depth[i] == a.depth[p.0 as int] + 1 && !a.scopes[p.0 as int].free);
                assert(p != slot);
            }
        }
    } else {
        assert forall|k: int| 0 <= k < b.free.len() implies b.is_free(#[trigger] b.free[k]) by {
            assert(a.is_free(a.free[k]));
        }
        assert forall|s: ScopeRef| b.is_free(s) implies #[trigger] b.free.contains(s) by {
            assert(a.is_free(s));
        }
        assert forall|i: int| 0 <= i < b.scopes.len() implies distinct(
            (#[trigger] b.scopes[i]).vars,
        ) && b.scopes[i].parent.0 < b.scopes.len() && (b.scopes[i].free ==> b.scopes[i]
            == ScopeModel::freed()) by {
            if i < a.scopes.len() {
                assert(distinct(a.scopes[i].vars));
                assert(a.scopes[i].parent.0 < a.scopes.len());
                assert(a.scopes[i].free ==> a.scopes[i] == ScopeModel::freed());
            }
        }
        assert forall|i: int| #![trigger b.depth[i]] 0 < i < b.scopes.len() implies b.depth[i]
            == b.depth[b.scopes[i].parent.0 as int] + 1
            && !b.scopes[b.scopes[i].parent.0 as int].free by {
            if i < a.scopes.len() {
                let p = a.scopes[i].parent;
                assert(a.depth[i] == a.depth[a.scopes[i].parent.0 as int] + 1);
                assert(a.depth[i] == a.depth[p.0 as int] + 1 && !a.scopes[p.0 as int].free);
            }
        }
    }
}

/// A binding keeps the forest.
#[verifier::rlimit(30)]
pub proof fn lemma_set(a: Arena, scope: ScopeRef, name: Seq<char>, val: Term)
    requires
        a.wf(),
    ensures
        a.set(scope, name, val).wf(),
{
    let b = a.set(scope, name, val);
    if a.live(scope) {
        assert(b.scopes.len() == a.scopes.len());
        assert(b.depth == a.depth);
        lemma_put_distinct(a.scopes[scope.0 as int].vars, name, val);
        assert(distinct(a.scopes[scope.0 as int].vars));
        assert forall|k: int| 0 <= k < b.free.len() implies b.is_free(#[trigger] b.free[k]) by {
            assert(a.is_free(a.free[k]));
        }
        assert forall|s: ScopeRef| b.is_free(s) implies #[trigger] b.free.contains(s) by {
            assert(a.is_free(s));
        }
        assert forall|i: int| 0 <= i < b.scopes.len() implies distinct(
            (#[trigger] b.scopes[i]).vars,
        ) && b.scopes[i].parent.0 < b.scopes.len() && (b.scopes[i].free ==> b.scopes[i]
            == ScopeModel::freed()) by {
            assert(distinct(a.scopes[i].vars));
            assert(a.scopes[i].parent.0 < a.scopes.len());
            assert(a.scopes[i].free ==> a.scopes[i] == ScopeModel::freed());
        }
        assert forall|i: int| #![trigger b.depth[i]] 0 < i < b.scopes.len() implies b.depth[i]
            == b.depth[b.scopes[i].parent.0 as int] + 1
            && !b.scopes[b.scopes[i].parent.0 as int].free by {
            let p = a.scopes[i].parent;
            assert(0 < i < a.scopes.len());
            assert(a.depth[i] == a.depth[a.scopes[i].parent.0 as int] + 1);
            assert(a.depth[i] == a.depth[p.0 as int] + 1 && !a.scopes[p.0 as int].free);
        }
        assert(b.scopes[0].parent == Arena::root());
        assert(!b.scopes[0].free);
        assert(forall|k: int, l: int| 0 <= k < l < b.free.len() ==> b.free[k] != b.free[l]);
        assert(b.wf_slots());
        assert(b.depth[0] == 0);
        assert(forall|i: int|
            #![trigger b.depth[i]]
            0 < i < b.scopes.len() ==> b.depth[i] == b.depth[b.scopes[i].parent.0 as int] + 1
                && !b.scopes[b.scopes[i].parent.0 as int].free);
        assert(b.wf());
    }
}

/// A scope lies at least as deep as each scope above it.
pub proof fn lemma_ancestor_is_not_deeper(a: Arena, scope: ScopeRef, ancestor: ScopeRef)
    requires
        a.wf(),
        a.scope_has_ancestor(scope, ancestor),
    ensures
        a.depth_of(ancestor) <= a.depth_of(scope),
    decreases a.depth_of(scope),
{
    if scope != ancestor {
        lemma_ancestor_is_not_deeper(a, a.parent(scope), ancestor);
    }
}

/// The parent of a scope does not stand below the scope.
pub proof fn lemma_parent_is_not_below(a: Arena, scope: ScopeRef)
    requires
        a.wf(),
        a.holds(scope),
        scope != Arena::root(),
    ensures
        !a.scope_has_ancestor(a.parent(scope), scope),
{
    let parent = a.parent(scope);
    assert(a.depth[scope.0 as int] == a.depth[parent.0 as int] + 1);
    if a.scope_has_ancestor(parent, scope) {
        lemma_ancestor_is_not_deeper(a, parent, scope);
    }
}

} // verus!
