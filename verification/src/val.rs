//! The values of the language, what they stand for, how they are compared,
//! printed and measured, and how a text is read into them.

use crate::number;
use crate::variables::ScopeRef;
use rust_lisp::model::{Symbol, Value};
use rust_lisp::parser::{parse, ParseError};
use vstd::prelude::*;
use vstd::string::StringExecFns;
use vstd::utf8::encode_utf8;
use vstd::std_specs::cmp::PartialEqSpecImpl;

verus! {

/// The procedures that are built into the evaluator. A value names one of
/// them; the evaluator runs it when the value stands at the head of a form.
#[derive(Clone, Copy, Debug, PartialEq, Eq, Structural)]
pub enum Native {
    Quote,
    Lambda,
    Define,
    DefineSyntax,
    Eval,
    If,
    Load,
    Car,
    Cdr,
    Cons,
    Do,
    Plus,
    Minus,
    Mult,
    Div,
    Modulo,
    Eq,
    Less,
    Greater,
    LessEq,
    GreaterEq,
    TypeList,
    TypeSym,
    TypeString,
    TypeNum,
    TypeLambda,
    Not,
    Event,
    Apply,
    Format,
    SetProgram,
}

/// A value of the language, code and data alike.
#[derive(Debug)]
pub enum Val {
    /// An identifier.
    Sym(String),
    /// A string literal.
    String(String),
    /// A number, as the bits of a binary32 value.
    Num(u32),
    /// A form or a list of data; the empty list is nil.
    List(Vec<Val>),
    /// A native procedure; the flag says that it takes its arguments unevaluated.
    Builtin(bool, Native),
    /// A closure: whether it is a macro, the scope it captured, and its
    /// `(lambda <params> <expr>...)` form.
    Lambda(bool, ScopeRef, Vec<Val>),
    /// The marker of a call that the host answers.
    Message(String),
}

/// What a `Val` stands for.
pub enum Term {
    Sym(Seq<char>),
    Text(Seq<char>),
    Num(u32),
    List(Seq<Term>),
    Builtin(bool, Native),
    Lambda(bool, ScopeRef, Seq<Term>),
    Message(Seq<char>),
}

/// What a value stands for: its names and strings as sequences of
/// characters, its lists as sequences of what their elements stand for.
pub open spec fn term_of(v: Val) -> Term
    decreases v,
{
    match v {
        Val::Sym(s) => Term::Sym(s@),
        Val::String(s) => Term::Text(s@),
        Val::Num(n) => Term::Num(n),
        Val::List(l) => Term::List(
            Seq::new(
                l@.len(),
                |i: int|
                    if 0 <= i < l@.len() {
                        term_of(l@[i])
                    } else {
                        Term::Num(0)
                    },
            ),
        ),
        Val::Builtin(special, native) => Term::Builtin(special, native),
        Val::Lambda(is_macro, scope, l) => Term::Lambda(
            is_macro,
            scope,
            Seq::new(
                l@.len(),
                |i: int|
                    if 0 <= i < l@.len() {
                        term_of(l@[i])
                    } else {
                        Term::Num(0)
                    },
            ),
        ),
        Val::Message(s) => Term::Message(s@),
    }
}

impl View for Val {
    type V = Term;

    open spec fn view(&self) -> Term {
        term_of(*self)
    }
}

/// The terms of a sequence of values, one for one.
pub open spec fn terms(l: Seq<Val>) -> Seq<Term> {
    Seq::new(l.len(), |i: int| l[i]@)
}

/// A list stands for the list of what its elements stand for.
pub proof fn lemma_list_view(l: Vec<Val>)
    ensures
        Val::List(l)@ == Term::List(terms(l@)),
{
    assert(term_of(Val::List(l))->List_0 =~= terms(l@));
}

/// A closure stands for the closure over what the elements of its form
/// stand for.
pub proof fn lemma_lambda_view(is_macro: bool, scope: ScopeRef, l: Vec<Val>)
    ensures
        Val::Lambda(is_macro, scope, l)@ == Term::Lambda(is_macro, scope, terms(l@)),
{
    assert(term_of(Val::Lambda(is_macro, scope, l))->Lambda_2 =~= terms(l@));
}

impl Term {
    /// The empty list.
    pub open spec fn nil() -> Term {
        Term::List(Seq::empty())
    }

    /// The symbol `t`.
    pub open spec fn truth() -> Term {
        Term::Sym("t"@)
    }

    /// Whether the value is the empty list, the one false value.
    pub open spec fn is_nil(self) -> bool {
        self matches Term::List(l) && l.len() == 0
    }

    /// A native procedure, or a list that starts with the symbol `lambda`.
    pub open spec fn is_callable(self) -> bool {
        match self {
            Term::List(l) => l.len() > 0 && l[0] == Term::Sym("lambda"@),
            Term::Builtin(_, _) => true,
            _ => false,
        }
    }

    /// Equality of the language. Lists are equal element by element; a closure
    /// equals a closure or a list with the same form, whatever it captured;
    /// numbers are equal as binary32 values; a native procedure and a message
    /// marker equal nothing.
    pub open spec fn same(self, other: Term) -> bool
        decreases self,
    {
        match self {
            Term::Sym(a) => other matches Term::Sym(b) && a == b,
            Term::Text(a) => other matches Term::Text(b) && a == b,
            Term::Num(a) => other matches Term::Num(b) && number::num_eq(a, b),
            Term::List(a) => match other.form() {
                Some(b) => {
                    &&& a.len() == b.len()
                    &&& forall|i: int| #![trigger a[i]] 0 <= i < a.len() ==> a[i].same(b[i])
                },
                None => false,
            },
            Term::Lambda(_, _, a) => match other.form() {
                Some(b) => {
                    &&& a.len() == b.len()
                    &&& forall|i: int| #![trigger a[i]] 0 <= i < a.len() ==> a[i].same(b[i])
                },
                None => false,
            },
            _ => false,
        }
    }

    /// The elements of a list, or the form of a closure.
    pub open spec fn form(self) -> Option<Seq<Term>> {
        match self {
            Term::List(l) => Some(l),
            Term::Lambda(_, _, l) => Some(l),
            _ => None,
        }
    }
}


/// Whether two sequences are equal element by element, as the language
/// compares them.
pub open spec fn all_same(a: Seq<Term>, b: Seq<Term>) -> bool {
    &&& a.len() == b.len()
    &&& forall|i: int| #![trigger a[i]] 0 <= i < a.len() ==> a[i].same(b[i])
}

/// Whether a string holds exactly the characters of `word`.
pub fn is_word(s: &String, word: &str) -> (r: bool)
    ensures
        r == (s@ == word@),
{
    let w = word.to_owned();
    *s == w
}

/// A copy of the values from index `from` on.
pub fn tail(l: &Vec<Val>, from: usize) -> (r: Vec<Val>)
    requires
        from <= l.len(),
    ensures
        terms(r@) == terms(l@).subrange(from as int, l.len() as int),
{
    let mut out: Vec<Val> = Vec::new();
    let mut i: usize = from;
    while i < l.len()
        invariant
            from <= i <= l.len(),
            out.len() == i - from,
            forall|j: int| 0 <= j < out.len() ==> out@[j]@ == l@[from + j]@,
        decreases l.len() - i,
    {
        out.push(l[i].clone());
        i += 1;
    }
    assert(terms(out@) =~= terms(l@).subrange(from as int, l.len() as int));
    out
}

/// A copy of a list of values.
pub fn copy_vals(l: &Vec<Val>) -> (r: Vec<Val>)
    ensures
        terms(r@) == terms(l@),
    decreases l,
{
    let mut out: Vec<Val> = Vec::new();
    let mut i: usize = 0;
    while i < l.len()
        invariant
            i <= l.len(),
            out.len() == i,
            forall|j: int| 0 <= j < i ==> out@[j]@ == l@[j]@,
        decreases l.len() - i,
    {
        out.push(l[i].clone());
        i += 1;
    }
    assert(terms(out@) =~= terms(l@));
    out
}

impl Clone for Val {
    /// A copy that stands for the same value.
    fn clone(&self) -> (r: Val)
        ensures
            r@ == self@,
        decreases self,
    {
        match self {
            Val::Sym(s) => Val::Sym(s.clone()),
            Val::String(s) => Val::String(s.clone()),
            Val::Num(n) => Val::Num(*n),
            Val::List(l) => {
                let c = copy_vals(l);
                proof {
                    lemma_list_view(c);
                    lemma_list_view(*l);
                }
                Val::List(c)
            },
            Val::Builtin(special, native) => Val::Builtin(*special, *native),
            Val::Lambda(is_macro, scope, l) => {
                let c = copy_vals(l);
                proof {
                    lemma_lambda_view(*is_macro, *scope, c);
                    lemma_lambda_view(*is_macro, *scope, *l);
                }
                Val::Lambda(*is_macro, *scope, c)
            },
            Val::Message(s) => Val::Message(s.clone()),
        }
    }
}

/// Whether two lists are equal element by element.
fn same_vals(a: &Vec<Val>, b: &Vec<Val>) -> (r: bool)
    ensures
        r == all_same(terms(a@), terms(b@)),
    decreases a,
{
    if a.len() != b.len() {
        return false;
    }
    let mut i: usize = 0;
    while i < a.len()
        invariant
            i <= a.len(),
            a.len() == b.len(),
            forall|j: int| #![trigger terms(a@)[j]] 0 <= j < i ==> terms(a@)[j].same(terms(b@)[j]),
        decreases a.len() - i,
    {
        if !same_val(&a[i], &b[i]) {
            assert(!terms(a@)[i as int].same(terms(b@)[i as int]));
            return false;
        }
        i += 1;
    }
    true
}

/// Whether two values are equal as the language compares them.
fn same_val(a: &Val, b: &Val) -> (r: bool)
    ensures
        r == a@.same(b@),
    decreases a,
{
    match a {
        Val::Sym(x) => match b {
            Val::Sym(y) => *x == *y,
            _ => false,
        },
        Val::String(x) => match b {
            Val::String(y) => *x == *y,
            _ => false,
        },
        Val::Num(x) => match b {
            Val::Num(y) => number::eq(*x, *y),
            _ => false,
        },
        Val::List(x) => {
            proof {
                lemma_list_view(*x);
            }
            match b {
                Val::List(y) => {
                    proof {
                        lemma_list_view(*y);
                    }
                    same_vals(x, y)
                },
                Val::Lambda(n, t, y) => {
                    proof {
                        lemma_lambda_view(*n, *t, *y);
                    }
                    same_vals(x, y)
                },
                _ => false,
            }
        },
        Val::Lambda(m, s, x) => {
            proof {
                lemma_lambda_view(*m, *s, *x);
            }
            match b {
                Val::List(y) => {
                    proof {
                        lemma_list_view(*y);
                    }
                    same_vals(x, y)
                },
                Val::Lambda(n, t, y) => {
                    proof {
                        lemma_lambda_view(*n, *t, *y);
                    }
                    same_vals(x, y)
                },
                _ => false,
            }
        },
        _ => false,
    }
}

impl PartialEq for Val {
    fn eq(&self, other: &Val) -> (r: bool) {
        same_val(self, other)
    }
}

impl PartialEqSpecImpl for Val {
    open spec fn obeys_eq_spec() -> bool {
        true
    }

    open spec fn eq_spec(&self, other: &Val) -> bool {
        self@.same(other@)
    }
}

impl Default for Val {
    fn default() -> (r: Val)
        ensures
            r@ == Term::nil(),
    {
        Val::nil()
    }
}

impl Val {
    /// The empty list, which is the one false value.
    pub fn nil() -> (r: Val)
        ensures
            r@ == Term::nil(),
    {
        let l: Vec<Val> = Vec::new();
        proof {
            lemma_list_view(l);
            assert(terms(l@) =~= Seq::empty());
        }
        Val::List(l)
    }

    /// The symbol `t`, which stands for true.
    pub fn truth() -> (r: Val)
        ensures
            r@ == Term::truth(),
    {
        Val::Sym("t".to_owned())
    }

    /// The false value: nil.
    pub fn lies() -> (r: Val)
        ensures
            r@ == Term::nil(),
    {
        Val::nil()
    }

    /// A symbol with the given name.
    pub fn sym(name: &str) -> (r: Val)
        ensures
            r@ == Term::Sym(name@),
    {
        Val::Sym(name.to_owned())
    }

    /// A list of the given values.
    pub fn list(l: Vec<Val>) -> (r: Val)
        ensures
            r@ == Term::List(terms(l@)),
    {
        proof {
            lemma_list_view(l);
        }
        Val::List(l)
    }

    /// Whether the value is the empty list, the one false value.
    pub fn is_nil(&self) -> (r: bool)
        ensures
            r == self@.is_nil(),
    {
        match self {
            Val::List(list) => {
                proof {
                    lemma_list_view(*list);
                }
                list.len() == 0
            },
            _ => false,
        }
    }

    /// Whether the value is a native procedure or a list that starts with
    /// the symbol `lambda`.
    pub fn is_callable(&self) -> (r: bool)
        ensures
            r == self@.is_callable(),
    {
        match self {
            Val::List(list) => {
                proof {
                    lemma_list_view(*list);
                }
                if list.len() == 0 {
                    false
                } else {
                    match &list[0] {
                        Val::Sym(sym) => is_word(sym, "lambda"),
                        _ => false,
                    }
                }
            },
            Val::Builtin(_, _) => true,
            _ => false,
        }
    }
}


impl Term {
    /// The printed form. A list is its elements between parentheses, a single
    /// space between two of them; a string literal stands between double
    /// quotes; a closure is printed as the list of its form, whatever scope
    /// it captured; a native procedure is `<special>` or `<builtin>`.
    pub open spec fn text(self) -> Seq<char>
        decreases self,
    {
        match self {
            Term::Sym(s) => s,
            Term::Text(s) => "\""@ + s + "\""@,
            Term::Num(n) => number::text(n),
            Term::List(l) => "("@ + Self::texts(l) + ")"@,
            Term::Builtin(special, _) => if special {
                "<special>"@
            } else {
                "<builtin>"@
            },
            Term::Lambda(_, _, l) => "("@ + Self::texts(l) + ")"@,
            Term::Message(s) => s,
        }
    }

    /// The printed forms of the elements, a single space between two of them.
    pub open spec fn texts(l: Seq<Term>) -> Seq<char>
        decreases l,
    {
        if l.len() == 0 {
            Seq::empty()
        } else if l.len() == 1 {
            l.last().text()
        } else {
            Self::texts(l.drop_last()) + " "@ + l.last().text()
        }
    }

    /// A measure of the memory that the value takes: the bytes of a name or
    /// string, 4 for a number or a native procedure, and 4 more than its
    /// elements for a list or a closure.
    pub open spec fn weight(self) -> nat
        decreases self,
    {
        match self {
            Term::Sym(s) => bytes(s),
            Term::Text(s) => bytes(s),
            Term::Num(_) => 4,
            Term::List(l) => 4 + Self::weights(l),
            Term::Builtin(_, _) => 4,
            Term::Lambda(_, _, l) => 4 + Self::weights(l),
            Term::Message(s) => bytes(s),
        }
    }

    /// The sum of the measures of the elements.
    pub open spec fn weights(l: Seq<Term>) -> nat
        decreases l,
    {
        if l.len() == 0 {
            0
        } else {
            Self::weights(l.drop_last()) + l.last().weight()
        }
    }
}

/// The number of bytes that a string takes in UTF-8, as `str::len` gives it.
pub open spec fn bytes(s: Seq<char>) -> nat {
    (encode_utf8(s).len() as usize) as nat
}

/// The smaller of a natural number and the largest `usize`.
pub open spec fn capped(n: nat) -> usize {
    if n > usize::MAX {
        usize::MAX
    } else {
        n as usize
    }
}

/// The sum of two sizes, held at the largest `usize`.
pub fn add_capped(a: usize, b: usize) -> (r: usize)
    ensures
        r == capped(a as nat + b as nat),
{
    if a > usize::MAX - b {
        usize::MAX
    } else {
        a + b
    }
}

/// The printed forms of the elements, a single space between two of them.
fn texts_of(l: &Vec<Val>) -> (r: String)
    ensures
        r@ == Term::texts(terms(l@)),
    decreases l,
{
    let mut s = String::new();
    let mut i: usize = 0;
    assert(terms(l@).subrange(0, 0) =~= Seq::empty());
    while i < l.len()
        invariant
            i <= l.len(),
            s@ == Term::texts(terms(l@).subrange(0, i as int)),
        decreases l.len() - i,
    {
        let ghost next = terms(l@).subrange(0, i + 1);
        assert(next.drop_last() =~= terms(l@).subrange(0, i as int));
        assert(next.last() == l@[i as int]@);
        if i > 0 {
            s.append(" ");
        }
        let item = l[i].to_string();
        s.append(item.as_str());
        assert(s@ =~= Term::texts(next));
        i += 1;
    }
    assert(terms(l@).subrange(0, l.len() as int) =~= terms(l@));
    s
}

/// The sum of the measures of the elements, held at the largest `usize`.
fn weights_of(l: &Vec<Val>) -> (r: usize)
    ensures
        r == capped(Term::weights(terms(l@))),
    decreases l,
{
    let mut size: usize = 0;
    let mut i: usize = 0;
    assert(terms(l@).subrange(0, 0) =~= Seq::empty());
    while i < l.len()
        invariant
            i <= l.len(),
            size == capped(Term::weights(terms(l@).subrange(0, i as int))),
        decreases l.len() - i,
    {
        let ghost next = terms(l@).subrange(0, i + 1);
        assert(next.drop_last() =~= terms(l@).subrange(0, i as int));
        assert(next.last() == l@[i as int]@);
        size = add_capped(size, l[i].memory_usage());
        i += 1;
    }
    assert(terms(l@).subrange(0, l.len() as int) =~= terms(l@));
    size
}

impl Val {
    /// The printed form of the value.
    pub fn to_string(&self) -> (r: String)
        ensures
            r@ == self@.text(),
        decreases self,
    {
        match self {
            Val::Sym(sym) => sym.clone(),
            Val::String(string) => {
                let mut s = "\"".to_owned();
                s.append(string.as_str());
                s.append("\"");
                s
            },
            Val::Num(num) => number::to_text(*num),
            Val::List(list) => {
                proof {
                    lemma_list_view(*list);
                }
                let mut s = "(".to_owned();
                let inner = texts_of(list);
                s.append(inner.as_str());
                s.append(")");
                s
            },
            Val::Builtin(special, _) => {
                if *special {
                    "<special>".to_owned()
                } else {
                    "<builtin>".to_owned()
                }
            },
            Val::Lambda(is_macro, vars, list) => {
                proof {
                    lemma_lambda_view(*is_macro, *vars, *list);
                }
                let mut s = "(".to_owned();
                let inner = texts_of(list);
                s.append(inner.as_str());
                s.append(")");
                s
            },
            Val::Message(message) => message.clone(),
        }
    }

    /// A measure of the memory that the value takes, held at the largest
    /// `usize`.
    pub fn memory_usage(&self) -> (r: usize)
        ensures
            r == capped(self@.weight()),
        decreases self,
    {
        match self {
            Val::Sym(sym) => sym.as_str().len(),
            Val::String(string) => string.as_str().len(),
            Val::Num(_) => 4,
            Val::List(list) => {
                proof {
                    lemma_list_view(*list);
                }
                add_capped(4, weights_of(list))
            },
            Val::Builtin(_, _) => 4,
            Val::Lambda(is_macro, vars, list) => {
                proof {
                    lemma_lambda_view(*is_macro, *vars, *list);
                }
                add_capped(4, weights_of(list))
            },
            Val::Message(message) => message.as_str().len(),
        }
    }
}

/// The value that the reader hands over.
#[verifier::external_type_specification]
#[verifier::external_body]
pub struct ExValue(Value);

/// The error that the reader hands over.
#[verifier::external_type_specification]
#[verifier::external_body]
pub struct ExParseError(ParseError);

/// One expression as the reader understood it, before it becomes a value of
/// the language.
#[derive(Debug)]
pub enum Syntax {
    True,
    False,
    Int(i32),
    Float(u32),
    Text(String),
    Symbol(String),
    List(Vec<Syntax>),
    HashMap,
    NativeFunc,
    NativeClosure,
    Lambda,
    Macro,
    Foreign,
    TailCall,
}

/// What a `Syntax` stands for.
pub enum Tree {
    True,
    False,
    Int(i32),
    Float(u32),
    Text(Seq<char>),
    Symbol(Seq<char>),
    List(Seq<Tree>),
    HashMap,
    NativeFunc,
    NativeClosure,
    Lambda,
    Macro,
    Foreign,
    TailCall,
}

/// What an expression of the reader stands for.
pub open spec fn tree_of(s: Syntax) -> Tree
    decreases s,
{
    match s {
        Syntax::True => Tree::True,
        Syntax::False => Tree::False,
        Syntax::Int(n) => Tree::Int(n),
        Syntax::Float(x) => Tree::Float(x),
        Syntax::Text(t) => Tree::Text(t@),
        Syntax::Symbol(t) => Tree::Symbol(t@),
        Syntax::List(l) => Tree::List(
            Seq::new(
                l@.len(),
                |i: int|
                    if 0 <= i < l@.len() {
                        tree_of(l@[i])
                    } else {
                        Tree::True
                    },
            ),
        ),
        Syntax::HashMap => Tree::HashMap,
        Syntax::NativeFunc => Tree::NativeFunc,
        Syntax::NativeClosure => Tree::NativeClosure,
        Syntax::Lambda => Tree::Lambda,
        Syntax::Macro => Tree::Macro,
        Syntax::Foreign => Tree::Foreign,
        Syntax::TailCall => Tree::TailCall,
    }
}

impl View for Syntax {
    type V = Tree;

    open spec fn view(&self) -> Tree {
        tree_of(*self)
    }
}

/// The trees of a sequence of expressions, one for one.
pub open spec fn trees(l: Seq<Syntax>) -> Seq<Tree> {
    Seq::new(l.len(), |i: int| l[i]@)
}

/// A list of the reader stands for the list of what its elements stand
/// for.
pub proof fn lemma_syntax_list_view(l: Vec<Syntax>)
    ensures
        Syntax::List(l)@ == Tree::List(trees(l@)),
{
    assert(tree_of(Syntax::List(l))->List_0 =~= trees(l@));
}

/// What the reader finds at one place of a text.
pub enum Reading {
    /// The text holds no further expression.
    End,
    /// What stands there is no expression.
    Failed,
    /// The expression that stands there.
    Expr(Tree),
}

/// What the reader finds in `text` after `n` expressions.
pub uninterp spec fn reading(text: Seq<char>, n: nat) -> Reading;

/// Tells the variants of rust_lisp's `Value` apart and moves their fields
/// over, a list element by element and a float as its bits. Nothing is
/// claimed of the result.
#[verifier::external_body]
fn syntax(value: Value) -> (r: Syntax) {
    match value {
        Value::True => Syntax::True, Value::False => Syntax::False,
        Value::Int(n) => Syntax::Int(n),
        Value::Float(x) => Syntax::Float(x.to_bits()),
        Value::String(s) => Syntax::Text(s),
        Value::Symbol(Symbol(s)) => Syntax::Symbol(s),
        Value::List(l) => Syntax::List(l.into_iter().map(syntax).collect()),
        Value::HashMap(_) => Syntax::HashMap,
        Value::NativeFunc(_) => Syntax::NativeFunc,
        Value::NativeClosure(_) => Syntax::NativeClosure,
        Value::Lambda(_) => Syntax::Lambda,
        Value::Macro(_) => Syntax::Macro,
        Value::Foreign(_) => Syntax::Foreign,
        Value::TailCall { .. } => Syntax::TailCall,
    }
}

/// Calls `parse` of rust_lisp on the text and takes the item of index `n` of
/// the iterator it returns: none at the end of the text, an error where the
/// text holds no expression, else the expression. The index is held to the
/// number of bytes of the text, which no text has more expressions than, so
/// that the call takes no more rounds than the text is long. The contract
/// only gives that item its name.
#[verifier::external_body]
fn read(text: &str, n: usize) -> (r: Option<Result<Syntax, ParseError>>)
    requires
        n <= bytes(text@),
    ensures
        reading(text@, n as nat) == match r {
            None => Reading::End,
            Some(Err(_)) => Reading::Failed,
            Some(Ok(s)) => Reading::Expr(s@),
        },
{
    parse(text).nth(n).map(|item| item.map(syntax))
}

impl Tree {
    /// The value of the language that an expression of the reader stands
    /// for. Integers and decimals become numbers alike; the reader's truth
    /// values become the symbols `t` and `f`; the symbol `""` is the empty
    /// string; what the reader cannot write down becomes a symbol that says
    /// what it was.
    pub open spec fn value(self) -> Term
        decreases self,
    {
        match self {
            Tree::True => Term::Sym("t"@),
            Tree::False => Term::Sym("f"@),
            Tree::Int(n) => Term::Num(number::of_int(n)),
            Tree::Float(x) => Term::Num(x),
            Tree::Text(s) => Term::Text(s),
            Tree::Symbol(s) => if s == "\"\""@ {
                Term::Text(Seq::empty())
            } else {
                Term::Sym(s)
            },
            Tree::List(l) => Term::List(
                Seq::new(
                    l.len(),
                    |i: int|
                        if 0 <= i < l.len() {
                            l[i].value()
                        } else {
                            Term::nil()
                        },
                ),
            ),
            Tree::HashMap => Term::Sym("hashmap"@),
            Tree::NativeFunc => Term::Sym("nativefunc"@),
            Tree::NativeClosure => Term::Sym("nativefunc"@),
            Tree::Lambda => Term::Sym("lambda"@),
            Tree::Macro => Term::Sym("macro"@),
            Tree::Foreign => Term::Sym("foreign"@),
            Tree::TailCall => Term::Sym("tailcall"@),
        }
    }
}

/// The symbol that stands for a text that is no expression.
pub open spec fn parse_error(text: Seq<char>) -> Term {
    Term::Sym("Error parsing: "@ + text)
}

/// The value of the first expression of a text, or the error symbol.
pub open spec fn parsed(text: Seq<char>) -> Term {
    match reading(text, 0) {
        Reading::Expr(tree) => tree.value(),
        _ => parse_error(text),
    }
}

/// The values of the expressions of a text from index `n` on, as far as the
/// reader gets: up to the end, the first place that holds no expression, or
/// index `limit`.
pub open spec fn parsed_from(text: Seq<char>, n: nat, limit: nat) -> Seq<Term>
    decreases limit - n,
{
    if n >= limit {
        Seq::empty()
    } else {
        match reading(text, n) {
            Reading::Expr(tree) => seq![tree.value()] + parsed_from(text, n + 1, limit),
            _ => Seq::empty(),
        }
    }
}

/// The values of the expressions of a text, as far as the reader gets. A
/// text holds no more expressions than bytes.
pub open spec fn parsed_all(text: Seq<char>) -> Seq<Term> {
    parsed_from(text, 0, bytes(text))
}

/// The values that the expressions of a list stand for.
fn values_of(l: &Vec<Syntax>) -> (r: Vec<Val>)
    ensures
        r@.len() == l@.len(),
        forall|i: int| 0 <= i < l@.len() ==> (#[trigger] r@[i])@ == l@[i]@.value(),
    decreases l,
{
    let mut out: Vec<Val> = Vec::new();
    let mut i: usize = 0;
    while i < l.len()
        invariant
            i <= l.len(),
            out@.len() == i,
            forall|j: int| 0 <= j < i ==> (#[trigger] out@[j])@ == l@[j]@.value(),
        decreases l.len() - i,
    {
        out.push(value_of(&l[i]));
        i += 1;
    }
    out
}

/// The value that an expression of the reader stands for.
fn value_of(value: &Syntax) -> (r: Val)
    ensures
        r@ == value@.value(),
    decreases value,
{
    match value {
        Syntax::Symbol(name) => {
            if is_word(name, "\"\"") {
                Val::String(String::new())
            } else {
                Val::Sym(name.clone())
            }
        },
        Syntax::Text(string) => Val::String(string.clone()),
        Syntax::List(list) => {
            proof {
                lemma_syntax_list_view(*list);
            }
            let vals = values_of(list);
            proof {
                lemma_list_view(vals);
                assert(terms(vals@) =~= value@.value()->List_0);
            }
            Val::List(vals)
        },
        Syntax::Int(n) => Val::Num(number::from_int(*n)),
        Syntax::Float(bits) => Val::Num(*bits),
        Syntax::True => Val::sym("t"),
        Syntax::False => Val::sym("f"),
        Syntax::Lambda => Val::sym("lambda"),
        Syntax::HashMap => Val::sym("hashmap"),
        Syntax::NativeFunc => Val::sym("nativefunc"),
        Syntax::NativeClosure => Val::sym("nativefunc"),
        Syntax::Macro => Val::sym("macro"),
        Syntax::Foreign => Val::sym("foreign"),
        Syntax::TailCall => Val::sym("tailcall"),
    }
}

/// The value of the language that an expression of the reader stands for.
pub fn value_to_val(value: Syntax) -> (r: Val)
    ensures
        r@ == value@.value(),
{
    value_of(&value)
}

/// Reads the first expression of a text. A text that holds none, or that
/// starts with what is no expression, gives the error symbol.
pub fn p(s: &str) -> (r: Val)
    ensures
        r@ == parsed(s@),
{
    match read(s, 0) {
        Some(Ok(first_expression)) => value_to_val(first_expression),
        _ => {
            let mut error = "Error parsing: ".to_owned();
            error.append(s);
            Val::Sym(error)
        },
    }
}

/// Reads the expressions of a text, one after the other, as far as the
/// reader gets.
pub fn p_all(s: &str) -> (r: Vec<Val>)
    ensures
        terms(r@) == parsed_all(s@),
{
    let mut result: Vec<Val> = Vec::new();
    let limit = s.len();
    let mut i: usize = 0;
    while i < limit
        invariant
            i <= limit,
            limit == bytes(s@),
            parsed_all(s@) == terms(result@) + parsed_from(s@, i as nat, limit as nat),
        decreases limit - i,
    {
        match read(s, i) {
            Some(Ok(expression)) => {
                let ghost before = terms(result@);
                let val = value_to_val(expression);
                result.push(val);
                assert(terms(result@) =~= before + seq![val@]);
                assert(before + (seq![val@] + parsed_from(s@, (i + 1) as nat, limit as nat))
                    =~= before + seq![val@] + parsed_from(s@, (i + 1) as nat, limit as nat));
            },
            _ => {
                assert(terms(result@) + Seq::<Term>::empty() =~= terms(result@));
                return result;
            },
        }
        i += 1;
    }
    assert(terms(result@) + Seq::<Term>::empty() =~= terms(result@));
    result
}

} // verus!
