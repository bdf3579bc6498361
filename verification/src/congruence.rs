//! Structural congruence: the same term in different shapes.
//!
//! Two terms are congruent when their scopes hold the same processes,
//! whatever the order in which a composition lists them and however they
//! are grouped. The processes of a scope are compared as a bag: each
//! process must occur as often on one side as on the other, where two
//! ambients count as the same process when their names agree and their
//! contents are congruent in turn.

use vstd::prelude::*;
use crate::ast::{Exec, Term};
use crate::process::{Proc, Process, get_children, procs_of, shape};

verus! {

/// The greater of two numbers.
pub open spec fn larger(a: nat, b: nat) -> nat {
    if a >= b {
        a
    } else {
        b
    }
}

/// How deep the ambients and sequences of `p` are nested.
pub open spec fn depth(p: Proc) -> nat
    decreases p,
{
    match p {
        Proc::Amb(_, ps) => 1 + deepest(ps),
        Proc::Act(_, _) => 0,
        Proc::Then(f, r) => 1 + larger(deepest(f), deepest(r)),
    }
}

/// The depth of the deepest process of `ps`.
pub open spec fn deepest(ps: Seq<Proc>) -> nat
    decreases ps,
{
    if ps.len() == 0 {
        0
    } else {
        larger(deepest(ps.drop_last()), depth(ps.last()))
    }
}

/// No process is deeper than the deepest of its list.
pub proof fn lemma_deepest(ps: Seq<Proc>, k: int)
    requires
        0 <= k < ps.len(),
    ensures
        depth(ps[k]) <= deepest(ps),
    decreases ps.len(),
{
    if k < ps.len() - 1 {
        lemma_deepest(ps.drop_last(), k);
    }
}

/// `p` and `q` are the same process up to congruence.
pub open spec fn alike(p: Proc, q: Proc) -> bool
    decreases larger(depth(p), depth(q)), 0nat, 0nat,
{
    match (p, q) {
        (Proc::Amb(n, ps), Proc::Amb(m, qs)) => n == m && same_bag(ps, qs),
        (Proc::Act(c, n), Proc::Act(d, m)) => c == d && n == m,
        (Proc::Then(f, r), Proc::Then(g, s)) => same_bag(f, g) && same_bag(r, s),
        _ => false,
    }
}

/// How many of the first `upto` processes of `xs` are alike to `q`.
pub open spec fn count(xs: Seq<Proc>, q: Proc, upto: nat) -> nat
    decreases larger(deepest(xs), depth(q)), 1nat, upto,
{
    if upto == 0 || upto > xs.len() {
        0
    } else {
        proof {
            lemma_deepest(xs, upto - 1);
        }
        count(xs, q, (upto - 1) as nat) + if alike(xs[upto - 1], q) {
            1nat
        } else {
            0nat
        }
    }
}

/// `ps` and `qs` hold the same processes up to congruence, each as often
/// in one as in the other.
pub open spec fn same_bag(ps: Seq<Proc>, qs: Seq<Proc>) -> bool
    decreases larger(deepest(ps), deepest(qs)), 2nat, 0nat,
{
    &&& ps.len() == qs.len()
    &&& forall|i: int|
        0 <= i < ps.len() ==> {
            proof {
                lemma_deepest(ps, i);
            }
            count(ps, #[trigger] ps[i], ps.len()) == count(qs, ps[i], qs.len())
        }
}

/// `a` and `b` are congruent.
pub open spec fn congruent_terms(a: Term, b: Term) -> bool {
    same_bag(shape(a), shape(b))
}

/// Every bag is the same as itself.
pub proof fn lemma_same_bag_reflexive(ps: Seq<Proc>)
    ensures
        same_bag(ps, ps),
{
}

/// `ps` with the processes at `i` and `j` exchanged.
pub open spec fn exchanged(ps: Seq<Proc>, i: int, j: int) -> Seq<Proc> {
    ps.update(i, ps[j]).update(j, ps[i])
}

proof fn lemma_count_exchanged(ps: Seq<Proc>, i: int, j: int, q: Proc, upto: nat)
    requires
        0 <= i < j < ps.len(),
        upto <= ps.len(),
    ensures
        count(exchanged(ps, i, j), q, upto) + (if i < upto <= j && alike(ps[i], q) {
            1int
        } else {
            0int
        }) == count(ps, q, upto) + (if i < upto <= j && alike(ps[j], q) {
            1int
        } else {
            0int
        }),
    decreases upto,
{
    if upto > 0 {
        lemma_count_exchanged(ps, i, j, q, (upto - 1) as nat);
    }
}

/// The order of the processes in a bag carries no meaning: a bag is the
/// same as itself with two of its processes exchanged.
pub proof fn lemma_exchange(ps: Seq<Proc>, i: int, j: int)
    requires
        0 <= i < ps.len(),
        0 <= j < ps.len(),
    ensures
        same_bag(ps, exchanged(ps, i, j)),
        same_bag(exchanged(ps, i, j), ps),
{
    let qs = exchanged(ps, i, j);
    if i == j {
        assert(qs =~= ps);
    } else {
        let lo = if i < j {
            i
        } else {
            j
        };
        let hi = if i < j {
            j
        } else {
            i
        };
        assert(qs =~= exchanged(ps, lo, hi));
        assert forall|k: int| 0 <= k < ps.len() implies count(ps, #[trigger] ps[k], ps.len())
            == count(qs, ps[k], qs.len()) by {
            lemma_count_exchanged(ps, lo, hi, ps[k], ps.len());
        }
        assert forall|k: int| 0 <= k < qs.len() implies count(qs, #[trigger] qs[k], qs.len())
            == count(ps, qs[k], ps.len()) by {
            lemma_count_exchanged(ps, lo, hi, qs[k], ps.len());
        }
    }
}

/// No process of `ps` is deeper than `d`.
pub open spec fn within(ps: Seq<Proc>, d: nat) -> bool {
    forall|k: int| 0 <= k < ps.len() ==> depth(#[trigger] ps[k]) <= d
}

proof fn lemma_within(ps: Seq<Proc>)
    ensures
        within(ps, deepest(ps)),
{
    assert forall|k: int| 0 <= k < ps.len() implies depth(#[trigger] ps[k]) <= deepest(ps) by {
        lemma_deepest(ps, k);
    }
}

proof fn lemma_within_more(ps: Seq<Proc>, d: nat, e: nat)
    requires
        within(ps, d),
        d <= e,
    ensures
        within(ps, e),
{
}

/// The processes inside a process are less deep than the process.
proof fn lemma_inside(p: Proc, d: nat)
    requires
        depth(p) <= d,
    ensures
        p is Amb ==> d > 0 && within(p->Amb_1, (d - 1) as nat),
        p is Then ==> d > 0 && within(p->Then_0, (d - 1) as nat) && within(
            p->Then_1,
            (d - 1) as nat,
        ),
{
    match p {
        Proc::Amb(_, ps) => {
            lemma_within(ps);
            lemma_within_more(ps, deepest(ps), (d - 1) as nat);
        },
        Proc::Then(f, r) => {
            lemma_within(f);
            lemma_within(r);
            lemma_within_more(f, deepest(f), (d - 1) as nat);
            lemma_within_more(r, deepest(r), (d - 1) as nat);
        },
        _ => {},
    }
}

proof fn lemma_count_removed(xs: Seq<Proc>, j: int, q: Proc, upto: nat)
    requires
        0 <= j < xs.len(),
        upto < xs.len(),
    ensures
        count(xs.remove(j), q, upto) + (if j <= upto && alike(xs[j], q) {
            1int
        } else {
            0int
        }) == count(xs, q, if j <= upto {
            upto + 1
        } else {
            upto
        }),
    decreases upto,
{
    let ys = xs.remove(j);
    if upto > 0 {
        lemma_count_removed(xs, j, q, (upto - 1) as nat);
        assert(ys[upto - 1] == if upto - 1 < j {
            xs[upto - 1]
        } else {
            xs[upto as int]
        });
    }
    assert(count(xs, q, upto) >= 0);
    assert(count(xs, q, upto + 1) >= 0);
}

proof fn lemma_count_witness(xs: Seq<Proc>, q: Proc, upto: nat) -> (k: int)
    requires
        count(xs, q, upto) > 0,
    ensures
        0 <= k < upto,
        k < xs.len(),
        alike(xs[k], q),
    decreases upto,
{
    if alike(xs[upto - 1], q) {
        upto - 1
    } else {
        lemma_count_witness(xs, q, (upto - 1) as nat)
    }
}

/// Likeness is symmetric.
pub proof fn lemma_alike_symmetric(p: Proc, q: Proc, d: nat)
    requires
        depth(p) <= d,
        depth(q) <= d,
        alike(p, q),
    ensures
        alike(q, p),
    decreases d, 0nat, 0nat,
{
    lemma_inside(p, d);
    lemma_inside(q, d);
    match (p, q) {
        (Proc::Amb(_, ps), Proc::Amb(_, qs)) => {
            lemma_bag_symmetric(ps, qs, (d - 1) as nat);
        },
        (Proc::Then(f, r), Proc::Then(g, s)) => {
            lemma_bag_symmetric(f, g, (d - 1) as nat);
            lemma_bag_symmetric(r, s, (d - 1) as nat);
        },
        _ => {},
    }
}

/// Likeness is transitive.
pub proof fn lemma_alike_transitive(p: Proc, q: Proc, r: Proc, d: nat)
    requires
        depth(p) <= d,
        depth(q) <= d,
        depth(r) <= d,
        alike(p, q),
        alike(q, r),
    ensures
        alike(p, r),
    decreases d, 0nat, 0nat,
{
    lemma_inside(p, d);
    lemma_inside(q, d);
    lemma_inside(r, d);
    match (p, q, r) {
        (Proc::Amb(_, ps), Proc::Amb(_, qs), Proc::Amb(_, rs)) => {
            lemma_bag_transitive(ps, qs, rs, (d - 1) as nat);
        },
        (Proc::Then(f, x), Proc::Then(g, y), Proc::Then(h, z)) => {
            lemma_bag_transitive(f, g, h, (d - 1) as nat);
            lemma_bag_transitive(x, y, z, (d - 1) as nat);
        },
        _ => {},
    }
}

/// Processes that are alike are alike to the same processes.
proof fn lemma_alike_to_the_same(a: Proc, b: Proc, w: Proc, d: nat)
    requires
        depth(a) <= d,
        depth(b) <= d,
        depth(w) <= d,
        alike(a, b),
    ensures
        alike(a, w) == alike(b, w),
    decreases d, 0nat, 1nat,
{
    lemma_alike_symmetric(a, b, d);
    if alike(a, w) {
        lemma_alike_transitive(b, a, w, d);
    }
    if alike(b, w) {
        lemma_alike_transitive(a, b, w, d);
    }
}

/// Bags that are the same hold every process equally often, also one that
/// is in neither.
proof fn lemma_bag_counts(ps: Seq<Proc>, qs: Seq<Proc>, z: Proc, d: nat)
    requires
        within(ps, d),
        within(qs, d),
        depth(z) <= d,
        same_bag(ps, qs),
    ensures
        count(ps, z, ps.len()) == count(qs, z, qs.len()),
    decreases d, 1nat, ps.len(),
{
    if ps.len() > 0 {
        let n = ps.len();
        let first = ps[0];
        assert(alike(first, first)) by {
            lemma_alike_reflexive(first);
        }
        lemma_count_removed(ps, 0, first, (n - 1) as nat);
        assert(count(ps, first, n) > 0);
        let j = lemma_count_witness(qs, first, n);
        let ps1 = ps.remove(0);
        let qs1 = qs.remove(j);
        assert forall|i: int| 0 <= i < ps1.len() implies count(ps1, #[trigger] ps1[i], ps1.len())
            == count(qs1, ps1[i], qs1.len()) by {
            let w = ps1[i];
            assert(w == ps[i + 1]);
            lemma_count_removed(ps, 0, w, (n - 1) as nat);
            lemma_count_removed(qs, j, w, (n - 1) as nat);
            lemma_alike_to_the_same(qs[j], first, w, d);
        }
        lemma_bag_counts(ps1, qs1, z, d);
        lemma_count_removed(ps, 0, z, (n - 1) as nat);
        lemma_count_removed(qs, j, z, (n - 1) as nat);
        lemma_alike_to_the_same(qs[j], first, z, d);
    }
}

/// Every process is alike to itself.
pub proof fn lemma_alike_reflexive(p: Proc)
    ensures
        alike(p, p),
{
    match p {
        Proc::Amb(_, ps) => lemma_same_bag_reflexive(ps),
        Proc::Then(f, r) => {
            lemma_same_bag_reflexive(f);
            lemma_same_bag_reflexive(r);
        },
        _ => {},
    }
}

proof fn lemma_bag_symmetric(ps: Seq<Proc>, qs: Seq<Proc>, d: nat)
    requires
        within(ps, d),
        within(qs, d),
        same_bag(ps, qs),
    ensures
        same_bag(qs, ps),
    decreases d, 2nat, 0nat,
{
    assert forall|j: int| 0 <= j < qs.len() implies count(qs, #[trigger] qs[j], qs.len())
        == count(ps, qs[j], ps.len()) by {
        lemma_bag_counts(ps, qs, qs[j], d);
    }
}

proof fn lemma_bag_transitive(ps: Seq<Proc>, qs: Seq<Proc>, rs: Seq<Proc>, d: nat)
    requires
        within(ps, d),
        within(qs, d),
        within(rs, d),
        same_bag(ps, qs),
        same_bag(qs, rs),
    ensures
        same_bag(ps, rs),
    decreases d, 2nat, 0nat,
{
    assert forall|i: int| 0 <= i < ps.len() implies count(ps, #[trigger] ps[i], ps.len())
        == count(rs, ps[i], rs.len()) by {
        lemma_bag_counts(qs, rs, ps[i], d);
    }
}

/// A depth that no process of the terms `a`, `b` and `c` exceeds.
pub open spec fn depth_of(a: Term, b: Term, c: Term) -> nat {
    larger(larger(deepest(shape(a)), deepest(shape(b))), deepest(shape(c)))
}

/// Congruence is symmetric.
pub proof fn lemma_congruent_symmetric(a: Term, b: Term)
    requires
        congruent_terms(a, b),
    ensures
        congruent_terms(b, a),
{
    let d = depth_of(a, b, b);
    lemma_within(shape(a));
    lemma_within(shape(b));
    lemma_within_more(shape(a), deepest(shape(a)), d);
    lemma_within_more(shape(b), deepest(shape(b)), d);
    lemma_bag_symmetric(shape(a), shape(b), d);
}

/// Congruence is transitive.
pub proof fn lemma_congruent_transitive(a: Term, b: Term, c: Term)
    requires
        congruent_terms(a, b),
        congruent_terms(b, c),
    ensures
        congruent_terms(a, c),
{
    let d = depth_of(a, b, c);
    lemma_within(shape(a));
    lemma_within(shape(b));
    lemma_within(shape(c));
    lemma_within_more(shape(a), deepest(shape(a)), d);
    lemma_within_more(shape(b), deepest(shape(b)), d);
    lemma_within_more(shape(c), deepest(shape(c)), d);
    lemma_bag_transitive(shape(a), shape(b), shape(c), d);
}

/// Congruence is reflexive.
pub proof fn lemma_congruent_reflexive(a: Term)
    ensures
        congruent_terms(a, a),
{
    lemma_same_bag_reflexive(shape(a));
}

/// Terms with the same processes in the same order are congruent.
pub proof fn lemma_same_shape_congruent(a: Term, b: Term)
    requires
        shape(a) == shape(b),
    ensures
        congruent_terms(a, b),
{
}

fn is_alike(p: &Process, q: &Process) -> (r: bool)
    ensures
        r == alike(p@, q@),
    decreases larger(depth(p@), depth(q@)), 0nat, 0nat,
{
    match (p, q) {
        (Process::Amb(n, ps), Process::Amb(m, qs)) => *n == *m && is_same_bag(ps, qs),
        (Process::Act(c, n), Process::Act(d, m)) => *c == *d && *n == *m,
        (Process::Then(f, r), Process::Then(g, s)) => is_same_bag(f, g) && is_same_bag(r, s),
        _ => false,
    }
}

fn count_alike(xs: &Vec<Process>, q: &Process) -> (n: usize)
    ensures
        n == count(procs_of(xs@), q@, xs.len() as nat),
    decreases larger(deepest(procs_of(xs@)), depth(q@)), 1nat, 0nat,
{
    let mut n: usize = 0;
    let mut k: usize = 0;
    while k < xs.len()
        invariant
            k <= xs.len(),
            n <= k,
            n == count(procs_of(xs@), q@, k as nat),
        decreases xs.len() - k,
    {
        proof {
            lemma_deepest(procs_of(xs@), k as int);
        }
        if is_alike(&xs[k], q) {
            n += 1;
        }
        k += 1;
    }
    n
}

fn is_same_bag(ps: &Vec<Process>, qs: &Vec<Process>) -> (r: bool)
    ensures
        r == same_bag(procs_of(ps@), procs_of(qs@)),
    decreases larger(deepest(procs_of(ps@)), deepest(procs_of(qs@))), 2nat, 0nat,
{
    if ps.len() != qs.len() {
        return false;
    }
    let mut i: usize = 0;
    while i < ps.len()
        invariant
            i <= ps.len(),
            ps.len() == qs.len(),
            forall|j: int|
                0 <= j < i ==> count(
                    procs_of(ps@),
                    #[trigger] procs_of(ps@)[j],
                    ps.len() as nat,
                ) == count(procs_of(qs@), procs_of(ps@)[j], qs.len() as nat),
        decreases ps.len() - i,
    {
        proof {
            lemma_deepest(procs_of(ps@), i as int);
        }
        if count_alike(ps, &ps[i]) != count_alike(qs, &ps[i]) {
            return false;
        }
        i += 1;
    }
    true
}

/// Whether `a` and `b` are congruent.
pub fn congruent(a: &Exec, b: &Exec) -> (r: bool)
    ensures
        r == congruent_terms(a@, b@),
{
    let ps = get_children(a);
    let qs = get_children(b);
    is_same_bag(&ps, &qs)
}

} // verus!
