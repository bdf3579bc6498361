//! The term model: the syntax tree of an ambient program.
//!
//! [`Exec`] is the tree that the parser builds and the printer reads. Its
//! mathematical counterpart is [`Term`], in which every list is a `Seq` and
//! every name a sequence of characters; contracts throughout the crate speak
//! of a tree `e` through `e@`.

use vstd::prelude::*;

verus! {

/// Events of the execution model that stand outside the calculus proper.
#[derive(Debug, Clone)]
pub enum Expr {
    /// An ambient is created under the given name.
    Create(String),
    /// An ambient is deployed under the given name.
    Deploy(String),
}

/// An ambient term.
///
/// Every node owns its children. Names are plain strings; the authorization
/// of a co-capability is either a name or the wildcard `*`.
#[derive(Debug)]
pub enum Exec {
    /// Concurrent composition `p | q | ...`; the order carries no meaning.
    Parallel(Vec<Exec>),
    /// Sequential composition `p.q. ...`; only the first element is active.
    Serial(Vec<Exec>),
    /// An ambient without content, `a[]`.
    Noop(String),
    /// A named container `a[p]`.
    Ambient(String, Box<Exec>),
    /// A parenthesized term `(p)`.
    Group(Box<Exec>),

    /// `open a`: dissolve the boundary of a sibling ambient `a`.
    Open(String),
    /// `open_ a`: allow `a` (or anyone, for `*`) to dissolve this ambient.
    Open_(String),
    /// `in a`: move into a sibling ambient `a`.
    In(String),
    /// `in_ a`: allow `a` (or anyone, for `*`) to move in.
    In_(String),
    /// `out a`: leave the enclosing ambient `a`.
    Out(String),
    /// `out_ a`: allow `a` (or anyone, for `*`) to leave.
    Out_(String),
}

/// The mathematical value of an [`Exec`].
pub enum Term {
    Parallel(Seq<Term>),
    Serial(Seq<Term>),
    Noop(Seq<char>),
    Ambient(Seq<char>, Box<Term>),
    Group(Box<Term>),
    Open(Seq<char>),
    Open_(Seq<char>),
    In(Seq<char>),
    In_(Seq<char>),
    Out(Seq<char>),
    Out_(Seq<char>),
}

/// The term that a tree stands for.
pub open spec fn term_of(e: Exec) -> Term
    decreases e,
{
    match e {
        Exec::Parallel(v) => Term::Parallel(terms_of(v@)),
        Exec::Serial(v) => Term::Serial(terms_of(v@)),
        Exec::Noop(n) => Term::Noop(n@),
        Exec::Ambient(n, b) => Term::Ambient(n@, Box::new(term_of(*b))),
        Exec::Group(b) => Term::Group(Box::new(term_of(*b))),
        Exec::Open(n) => Term::Open(n@),
        Exec::Open_(n) => Term::Open_(n@),
        Exec::In(n) => Term::In(n@),
        Exec::In_(n) => Term::In_(n@),
        Exec::Out(n) => Term::Out(n@),
        Exec::Out_(n) => Term::Out_(n@),
    }
}

/// The terms that a list of trees stands for, in order.
pub open spec fn terms_of(es: Seq<Exec>) -> Seq<Term>
    decreases es,
{
    Seq::new(
        es.len(),
        |i: int|
            if 0 <= i < es.len() {
                term_of(es[i])
            } else {
                Term::Parallel(Seq::empty())
            },
    )
}

impl View for Exec {
    type V = Term;

    open spec fn view(&self) -> Term {
        term_of(*self)
    }
}

impl Clone for Exec {
    /// A deep copy: the same term in fresh storage.
    fn clone(&self) -> (r: Exec)
        ensures
            r@ == self@,
    {
        copy_term(self)
    }
}

fn copy_term(t: &Exec) -> (r: Exec)
    ensures
        r@ == t@,
    decreases t,
{
    match t {
        Exec::Parallel(v) => Exec::Parallel(copy_terms(v)),
        Exec::Serial(v) => Exec::Serial(copy_terms(v)),
        Exec::Noop(n) => Exec::Noop(n.clone()),
        Exec::Ambient(n, b) => Exec::Ambient(n.clone(), Box::new(copy_term(b))),
        Exec::Group(b) => Exec::Group(Box::new(copy_term(b))),
        Exec::Open(n) => Exec::Open(n.clone()),
        Exec::Open_(n) => Exec::Open_(n.clone()),
        Exec::In(n) => Exec::In(n.clone()),
        Exec::In_(n) => Exec::In_(n.clone()),
        Exec::Out(n) => Exec::Out(n.clone()),
        Exec::Out_(n) => Exec::Out_(n.clone()),
    }
}

fn copy_terms(v: &Vec<Exec>) -> (out: Vec<Exec>)
    ensures
        terms_of(out@) == terms_of(v@),
    decreases v,
{
    let mut out: Vec<Exec> = Vec::new();
    let mut i: usize = 0;
    while i < v.len()
        invariant
            i <= v.len(),
            out@.len() == i,
            forall|j: int| 0 <= j < i ==> out@[j]@ == v@[j]@,
        decreases v.len() - i,
    {
        out.push(copy_term(&v[i]));
        i += 1;
    }
    assert(terms_of(out@) =~= terms_of(v@));
    out
}

} // verus!
