//! Processes: what a term means once transparent grouping is looked through.
//!
//! Many terms describe the same composition: `(a[] | b[]) | c[]` and
//! `a[] | b[] | c[]`, `(in a)` and `in a`, `a[]` and an ambient `a` whose
//! body is empty. A scope is therefore read as the flat list of processes
//! that run side by side in it, each of them an ambient, a capability, or a
//! sequence `first.rest` that waits for its first part. [`shape`] gives that
//! list for a term and [`compose`] writes a list back as a term; the
//! matcher and the rewrite rules work on the lists.

use vstd::prelude::*;
use crate::ast::{Exec, Term, terms_of};

verus! {

/// The six actions of the calculus.
#[derive(Debug, Clone, Copy, PartialEq, Eq, Structural)]
pub enum Cap {
    /// `in a`
    In,
    /// `out a`
    Out,
    /// `open a`
    Open,
    /// `in_ a`
    CoIn,
    /// `out_ a`
    CoOut,
    /// `open_ a`
    CoOpen,
}

/// The mathematical value of a [`Process`].
pub enum Proc {
    /// An ambient and the processes that run side by side in it.
    Amb(Seq<char>, Seq<Proc>),
    /// A capability or co-capability with the name it carries.
    Act(Cap, Seq<char>),
    /// `first.rest`: `rest` is released once `first` has been consumed.
    Then(Seq<Proc>, Seq<Proc>),
}

/// One process of a scope.
#[derive(Debug)]
pub enum Process {
    /// An ambient and the processes that run side by side in it.
    Amb(String, Vec<Process>),
    /// A capability or co-capability with the name it carries.
    Act(Cap, String),
    /// `first.rest`: `rest` is released once `first` has been consumed.
    Then(Vec<Process>, Vec<Process>),
}

/// The value of one process.
pub open spec fn proc_of(p: Process) -> Proc
    decreases p,
{
    match p {
        Process::Amb(n, ps) => Proc::Amb(n@, procs_of(ps@)),
        Process::Act(c, n) => Proc::Act(c, n@),
        Process::Then(f, r) => Proc::Then(procs_of(f@), procs_of(r@)),
    }
}

/// The values of a list of processes, in order.
pub open spec fn procs_of(ps: Seq<Process>) -> Seq<Proc>
    decreases ps,
{
    Seq::new(
        ps.len(),
        |i: int|
            if 0 <= i < ps.len() {
                proc_of(ps[i])
            } else {
                Proc::Amb(Seq::empty(), Seq::empty())
            },
    )
}

impl View for Process {
    type V = Proc;

    open spec fn view(&self) -> Proc {
        proc_of(*self)
    }
}

/// The processes that run side by side in the scope that `t` describes.
///
/// Composition is flattened, parentheses are dropped, a sequence of one
/// element is that element and an empty sequence is nothing.
pub open spec fn shape(t: Term) -> Seq<Proc>
    decreases t,
{
    match t {
        Term::Parallel(ts) => shapes(ts),
        Term::Serial(ts) => chain(ts),
        Term::Noop(n) => seq![Proc::Amb(n, Seq::empty())],
        Term::Ambient(n, b) => seq![Proc::Amb(n, shape(*b))],
        Term::Group(b) => shape(*b),
        Term::Open(n) => seq![Proc::Act(Cap::Open, n)],
        Term::Open_(n) => seq![Proc::Act(Cap::CoOpen, n)],
        Term::In(n) => seq![Proc::Act(Cap::In, n)],
        Term::In_(n) => seq![Proc::Act(Cap::CoIn, n)],
        Term::Out(n) => seq![Proc::Act(Cap::Out, n)],
        Term::Out_(n) => seq![Proc::Act(Cap::CoOut, n)],
    }
}

/// The processes of `ts[0] | ts[1] | ...`.
pub open spec fn shapes(ts: Seq<Term>) -> Seq<Proc>
    decreases ts,
{
    if ts.len() == 0 {
        Seq::empty()
    } else {
        shapes(ts.drop_last()) + shape(ts.last())
    }
}

/// The processes of `ts[0].ts[1]. ...`, nested to the right.
pub open spec fn chain(ts: Seq<Term>) -> Seq<Proc>
    decreases ts,
{
    if ts.len() == 0 {
        Seq::empty()
    } else if ts.len() == 1 {
        shape(ts[0])
    } else {
        seq![Proc::Then(shape(ts[0]), chain(ts.drop_first()))]
    }
}

/// The term that stands for the processes `ps` side by side: the single
/// process itself, or a composition of all of them.
pub open spec fn compose(ps: Seq<Proc>) -> Term
    decreases ps, 2nat,
{
    if ps.len() == 1 {
        unit(ps[0])
    } else {
        Term::Parallel(units(ps))
    }
}

/// The term of each process of `ps`.
pub open spec fn units(ps: Seq<Proc>) -> Seq<Term>
    decreases ps, 1nat,
{
    Seq::new(
        ps.len(),
        |i: int|
            if 0 <= i < ps.len() {
                unit(ps[i])
            } else {
                Term::Parallel(Seq::empty())
            },
    )
}

/// The term of one process.
pub open spec fn unit(p: Proc) -> Term
    decreases p, 0nat,
{
    match p {
        Proc::Amb(n, ps) => if ps.len() == 0 {
            Term::Noop(n)
        } else {
            Term::Ambient(n, Box::new(compose(ps)))
        },
        Proc::Act(c, n) => leaf(c, n),
        Proc::Then(f, r) => Term::Serial(seq![compose(f)] + steps(r)),
    }
}

/// The elements of a sequence whose nesting to the right is `r`.
pub open spec fn steps(r: Seq<Proc>) -> Seq<Term>
    decreases r, 3nat,
{
    if r.len() == 1 && r[0] is Then {
        seq![compose(r[0]->Then_0)] + steps(r[0]->Then_1)
    } else {
        seq![compose(r)]
    }
}

/// The leaf term of an action.
pub open spec fn leaf(c: Cap, n: Seq<char>) -> Term {
    match c {
        Cap::In => Term::In(n),
        Cap::Out => Term::Out(n),
        Cap::Open => Term::Open(n),
        Cap::CoIn => Term::In_(n),
        Cap::CoOut => Term::Out_(n),
        Cap::CoOpen => Term::Open_(n),
    }
}

/// Reading back what was written: the processes of `compose(ps)` are `ps`.
pub proof fn lemma_shape_compose(ps: Seq<Proc>)
    ensures
        shape(compose(ps)) == ps,
    decreases ps, 1nat,
{
    if ps.len() == 1 {
        lemma_shape_unit(ps[0]);
        assert(seq![ps[0]] =~= ps);
    } else {
        lemma_shapes_units(ps, ps.len() as int);
        assert(units(ps).take(ps.len() as int) =~= units(ps));
        assert(ps.take(ps.len() as int) =~= ps);
    }
}

proof fn lemma_shapes_units(ps: Seq<Proc>, k: int)
    requires
        0 <= k <= ps.len(),
    ensures
        shapes(units(ps).take(k)) == ps.take(k),
    decreases ps, 0nat, k,
{
    if k == 0 {
        assert(ps.take(0) =~= Seq::<Proc>::empty());
    } else {
        lemma_shapes_units(ps, k - 1);
        lemma_shape_unit(ps[k - 1]);
        assert(units(ps).take(k).drop_last() =~= units(ps).take(k - 1));
        assert(ps.take(k) =~= ps.take(k - 1) + seq![ps[k - 1]]);
    }
}

proof fn lemma_shape_unit(p: Proc)
    ensures
        shape(unit(p)) == seq![p],
    decreases p, 2nat,
{
    match p {
        Proc::Amb(n, ps) => {
            if ps.len() > 0 {
                lemma_shape_compose(ps);
            } else {
                assert(ps =~= Seq::<Proc>::empty());
            }
        },
        Proc::Act(c, n) => {
            match c {
                Cap::In => {},
                Cap::Out => {},
                Cap::Open => {},
                Cap::CoIn => {},
                Cap::CoOut => {},
                Cap::CoOpen => {},
            }
        },
        Proc::Then(f, r) => {
            lemma_shape_compose(f);
            lemma_chain_steps(r);
            let items = seq![compose(f)] + steps(r);
            assert(items.drop_first() =~= steps(r));
            assert(chain(items) == seq![Proc::Then(shape(items[0]), chain(items.drop_first()))]);
        },
    }
}

proof fn lemma_chain_steps(r: Seq<Proc>)
    ensures
        steps(r).len() >= 1,
        chain(steps(r)) == r,
    decreases r, 2nat,
{
    if r.len() == 1 && r[0] is Then {
        let f = r[0]->Then_0;
        let rest = r[0]->Then_1;
        lemma_shape_compose(f);
        lemma_chain_steps(rest);
        let items = seq![compose(f)] + steps(rest);
        assert(items.drop_first() =~= steps(rest));
        assert(seq![r[0]] =~= r);
    } else {
        lemma_shape_compose(r);
    }
}

/// The processes that run side by side in the scope that `ast` describes.
pub fn get_children(ast: &Exec) -> (r: Vec<Process>)
    ensures
        procs_of(r@) == shape(ast@),
    decreases ast, 0nat,
{
    match ast {
        Exec::Parallel(v) => children_of_all(v),
        Exec::Serial(v) => {
            assert(terms_of(v@).skip(0) =~= terms_of(v@));
            children_of_chain(v, 0)
        },
        Exec::Noop(n) => {
            let inside: Vec<Process> = Vec::new();
            assert(procs_of(inside@) =~= Seq::<Proc>::empty());
            one(Process::Amb(n.clone(), inside))
        },
        Exec::Ambient(n, b) => one(Process::Amb(n.clone(), get_children(b))),
        Exec::Group(b) => get_children(b),
        Exec::Open(n) => one(Process::Act(Cap::Open, n.clone())),
        Exec::Open_(n) => one(Process::Act(Cap::CoOpen, n.clone())),
        Exec::In(n) => one(Process::Act(Cap::In, n.clone())),
        Exec::In_(n) => one(Process::Act(Cap::CoIn, n.clone())),
        Exec::Out(n) => one(Process::Act(Cap::Out, n.clone())),
        Exec::Out_(n) => one(Process::Act(Cap::CoOut, n.clone())),
    }
}

fn one(p: Process) -> (r: Vec<Process>)
    ensures
        procs_of(r@) == seq![p@],
{
    let mut r: Vec<Process> = Vec::new();
    r.push(p);
    assert(procs_of(r@) =~= seq![p@]);
    r
}

fn children_of_all(v: &Vec<Exec>) -> (out: Vec<Process>)
    ensures
        procs_of(out@) == shapes(terms_of(v@)),
    decreases v, 0nat,
{
    let mut out: Vec<Process> = Vec::new();
    let mut i: usize = 0;
    assert(terms_of(v@).take(0) =~= Seq::<Term>::empty());
    assert(procs_of(out@) =~= Seq::<Proc>::empty());
    while i < v.len()
        invariant
            i <= v.len(),
            procs_of(out@) == shapes(terms_of(v@).take(i as int)),
        decreases v.len() - i,
    {
        let mut more = get_children(&v[i]);
        let ghost before = out@;
        let ghost added = more@;
        out.append(&mut more);
        proof {
            let ts = terms_of(v@);
            assert(ts.take(i + 1).drop_last() =~= ts.take(i as int));
            assert(ts.take(i + 1).last() == v@[i as int]@);
            assert(procs_of(before + added) =~= procs_of(before) + procs_of(added));
        }
        i += 1;
    }
    assert(terms_of(v@).take(v.len() as int) =~= terms_of(v@));
    out
}

fn children_of_chain(v: &Vec<Exec>, from: usize) -> (out: Vec<Process>)
    requires
        from <= v.len(),
    ensures
        procs_of(out@) == chain(terms_of(v@).skip(from as int)),
    decreases v, v.len() - from,
{
    let ghost ts = terms_of(v@).skip(from as int);
    if from == v.len() {
        let out: Vec<Process> = Vec::new();
        assert(procs_of(out@) =~= Seq::<Proc>::empty());
        out
    } else if from + 1 == v.len() {
        assert(ts[0] == v@[from as int]@);
        get_children(&v[from])
    } else {
        let first = get_children(&v[from]);
        let rest = children_of_chain(v, from + 1);
        proof {
            assert(ts[0] == v@[from as int]@);
            assert(ts.drop_first() =~= terms_of(v@).skip(from + 1));
        }
        one(Process::Then(first, rest))
    }
}

/// The term that stands for the processes `ps` side by side.
pub fn raise(ps: &Vec<Process>) -> (r: Exec)
    ensures
        r@ == compose(procs_of(ps@)),
    decreases ps, 0nat,
{
    if ps.len() == 1 {
        raise_unit(&ps[0])
    } else {
        let mut out: Vec<Exec> = Vec::new();
        let mut i: usize = 0;
        while i < ps.len()
            invariant
                i <= ps.len(),
                out@.len() == i,
                forall|j: int| 0 <= j < i ==> out@[j]@ == unit(ps@[j]@),
            decreases ps.len() - i,
        {
            out.push(raise_unit(&ps[i]));
            i += 1;
        }
        assert(terms_of(out@) =~= units(procs_of(ps@)));
        Exec::Parallel(out)
    }
}

fn raise_unit(p: &Process) -> (r: Exec)
    ensures
        r@ == unit(p@),
    decreases p, 0nat,
{
    match p {
        Process::Amb(n, ps) => {
            if ps.len() == 0 {
                Exec::Noop(n.clone())
            } else {
                Exec::Ambient(n.clone(), Box::new(raise(ps)))
            }
        },
        Process::Act(c, n) => raise_leaf(*c, n.clone()),
        Process::Then(f, r) => {
            let mut items: Vec<Exec> = Vec::new();
            items.push(raise(f));
            raise_steps(r, &mut items);
            assert(terms_of(items@) =~= seq![compose(procs_of(f@))] + steps(procs_of(r@)));
            Exec::Serial(items)
        },
    }
}

fn raise_steps(r: &Vec<Process>, items: &mut Vec<Exec>)
    ensures
        terms_of(final(items)@) == terms_of(old(items)@) + steps(procs_of(r@)),
    decreases r, 1nat,
{
    let ghost before = items@;
    if r.len() == 1 {
        match &r[0] {
            Process::Then(f, rest) => {
                items.push(raise(f));
                let ghost mid = items@;
                raise_steps(rest, items);
                assert(terms_of(mid) =~= terms_of(before) + seq![compose(procs_of(f@))]);
                assert(terms_of(items@) =~= terms_of(before) + steps(procs_of(r@)));
                return ;
            },
            _ => {},
        }
    }
    items.push(raise(r));
    assert(terms_of(items@) =~= terms_of(before) + steps(procs_of(r@)));
}

fn raise_leaf(c: Cap, n: String) -> (r: Exec)
    ensures
        r@ == leaf(c, n@),
{
    match c {
        Cap::In => Exec::In(n),
        Cap::Out => Exec::Out(n),
        Cap::Open => Exec::Open(n),
        Cap::CoIn => Exec::In_(n),
        Cap::CoOut => Exec::Out_(n),
        Cap::CoOpen => Exec::Open_(n),
    }
}

} // verus!
