//! Objects as the host writes them down: lists of properties, each a key
//! and what belongs to it.

use crate::number;
use crate::val::{lemma_list_view, tail, terms, Term, Val};
use vstd::prelude::*;

verus! {

/// Whether a value is a property of an object: a list that is empty or
/// starts with a symbol, the key.
pub open spec fn is_property(item: Term) -> bool {
    item matches Term::List(l) && (l.len() == 0 || l[0] is Sym)
}

/// Whether a value is an object: a list of properties.
pub open spec fn is_object(object: Term) -> bool {
    object matches Term::List(l) && forall|i: int| 0 <= i < l.len() ==> is_property(#[trigger] l[i])
}

/// The value of a property: nil for a key alone, the element behind the key
/// where there is one, the list of the elements behind it where there are
/// more.
pub open spec fn property_value(item: Seq<Term>) -> Term {
    if item.len() == 1 {
        Term::nil()
    } else if item.len() == 2 {
        item[1]
    } else {
        Term::List(item.subrange(1, item.len() as int))
    }
}

/// The keys and values of the first `n` properties, the empty ones left out.
pub open spec fn properties_of(items: Seq<Term>, n: int) -> Seq<(Seq<char>, Term)>
    decreases n,
{
    if n <= 0 {
        Seq::empty()
    } else {
        let before = properties_of(items, n - 1);
        match items[n - 1] {
            Term::List(item) => if item.len() > 0 && item[0] is Sym {
                before.push((item[0]->Sym_0, property_value(item)))
            } else {
                before
            },
            _ => before,
        }
    }
}

/// The numbers at the head of a list of at least two elements, as integers.
pub open spec fn ivec2_of(object: Term) -> Option<(i32, i32)> {
    match object {
        Term::List(l) => if l.len() >= 2 && l[0] is Num && l[1] is Num {
            Some((number::truncated(l[0]->Num_0), number::truncated(l[1]->Num_0)))
        } else {
            None
        },
        _ => None,
    }
}

/// The text of a value: a name or a string as it is, anything else in its
/// printed form.
pub open spec fn string_of(object: Term) -> Seq<char> {
    match object {
        Term::Sym(s) => s,
        Term::Text(s) => s,
        _ => object.text(),
    }
}

/// Whether a value is an object.
pub fn check_object(object: &Val) -> (r: bool)
    ensures
        r == is_object(object@),
{
    match object {
        Val::List(list) => {
            proof {
                lemma_list_view(*list);
            }
            let mut i: usize = 0;
            while i < list.len()
                invariant
                    i <= list.len(),
                    object@ == Term::List(terms(list@)),
                    forall|j: int| 0 <= j < i ==> is_property(#[trigger] terms(list@)[j]),
                decreases list.len() - i,
            {
                let fits = match &list[i] {
                    Val::List(item) => {
                        proof {
                            lemma_list_view(*item);
                        }
                        item.len() == 0 || matches!(&item[0], Val::Sym(_))
                    },
                    _ => false,
                };
                if !fits {
                    assert(!is_property(object@->List_0[i as int]));
                    return false;
                }
                i += 1;
            }
            true
        },
        _ => false,
    }
}

/// The keys and values of an object, in the order of its properties.
pub fn properties(object: &Val) -> (r: Vec<(String, Val)>)
    requires
        is_object(object@),
    ensures
        crate::variables::pairs(r@) == properties_of(
            object@->List_0,
            object@->List_0.len() as int,
        ),
{
    let mut out: Vec<(String, Val)> = Vec::new();
    match object {
        Val::List(list) => {
            proof {
                lemma_list_view(*list);
            }
            let mut i: usize = 0;
            assert(crate::variables::pairs(out@) =~= properties_of(terms(list@), 0));
            while i < list.len()
                invariant
                    i <= list.len(),
                    object@ == Term::List(terms(list@)),
                    is_object(object@),
                    crate::variables::pairs(out@) == properties_of(terms(list@), i as int),
                decreases list.len() - i,
            {
                assert(is_property(object@->List_0[i as int]));
                match &list[i] {
                    Val::List(item) => {
                        proof {
                            lemma_list_view(*item);
                        }
                        if item.len() > 0 {
                            match &item[0] {
                                Val::Sym(key) => {
                                    let value = if item.len() == 1 {
                                        Val::nil()
                                    } else if item.len() == 2 {
                                        item[1].clone()
                                    } else {
                                        Val::list(tail(item, 1))
                                    };
                                    let ghost before = crate::variables::pairs(out@);
                                    out.push((key.clone(), value));
                                    assert(crate::variables::pairs(out@) =~= before.push(
                                        (key@, property_value(terms(item@))),
                                    ));
                                },
                                _ => {},
                            }
                        }
                    },
                    _ => {},
                }
                i += 1;
            }
        },
        _ => {},
    }
    out
}

/// Hands each property of an object to `f`, the key and the value.
pub fn read_object(object: &Val, mut f: impl FnMut(&str, &Val))
    requires
        is_object(object@),
        forall|key: &str, val: &Val| f.requires((key, val)),
{
    let found = properties(object);
    let mut i: usize = 0;
    while i < found.len()
        invariant
            i <= found.len(),
            forall|key: &str, val: &Val| f.requires((key, val)),
        decreases found.len() - i,
    {
        f(found[i].0.as_str(), &found[i].1);
        i += 1;
    }
}

/// The numbers at the head of a list of at least two elements, as integers.
pub fn ivec2(object: &Val) -> (r: Option<(i32, i32)>)
    ensures
        r == ivec2_of(object@),
{
    match object {
        Val::List(list) => {
            proof {
                lemma_list_view(*list);
            }
            if list.len() >= 2 {
                match (&list[0], &list[1]) {
                    (Val::Num(x), Val::Num(y)) => Some((number::to_int(*x), number::to_int(*y))),
                    _ => None,
                }
            } else {
                None
            }
        },
        _ => None,
    }
}

/// Hands the two numbers at the head of a list to `success`, as integers;
/// calls `failure` where the value is no such list.
pub fn read_ivec2(object: &Val, success: impl FnOnce(i32, i32), failure: impl FnOnce())
    requires
        forall|x: i32, y: i32| success.requires((x, y)),
        failure.requires(()),
    ensures
        match ivec2_of(object@) {
            Some((x, y)) => success.ensures((x, y), ()),
            None => failure.ensures((), ()),
        },
{
    match ivec2(object) {
        Some((x, y)) => success(x, y),
        None => failure(),
    }
}

/// The text of a value: a name or a string as it is, anything else in its
/// printed form.
pub fn read_string(object: &Val) -> (r: String)
    ensures
        r@ == string_of(object@),
{
    match object {
        Val::Sym(sym) => sym.clone(),
        Val::String(str) => str.clone(),
        _ => object.to_string(),
    }
}

} // verus!
