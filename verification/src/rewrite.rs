//! What a reduction does to the processes of a scope.
//!
//! A reduction consumes the capability and the co-capability that met, and
//! moves the processes concerned: nothing is copied and nothing else is
//! touched. What a sequence releases when its head is consumed joins the
//! scope in the place where the sequence stood.

use vstd::prelude::*;
use crate::process::{Proc, Process, procs_of};
use crate::redex::{
    Rule, RedexSite, Site, body, enters, exits, head, name, opens, rest, valid_in,
};

verus! {

/// `ps` with the process at `k` replaced by the processes `items`.
pub open spec fn splice(ps: Seq<Proc>, k: int, items: Seq<Proc>) -> Seq<Proc> {
    ps.take(k) + items + ps.skip(k + 1)
}

/// `ps` once the head of the process at `k` has been consumed.
pub open spec fn consume(ps: Seq<Proc>, k: int) -> Seq<Proc> {
    splice(ps, k, rest(ps[k]))
}

/// The scope after the entry that `s` describes: the requester, without
/// its `in`, has become the last process of the target, which has lost its
/// `in_`.
pub open spec fn entered(bs: Seq<Proc>, s: Site) -> Seq<Proc> {
    let a = bs[s.requester];
    let b = bs[s.target];
    let moved = Proc::Amb(name(a), consume(body(a), s.capability));
    let host = Proc::Amb(name(b), consume(body(b), s.grant).push(moved));
    bs.update(s.target, host).remove(s.requester)
}

/// The scope after the exit that `s` describes: the requester, without its
/// `out`, stands just before the target, which has lost it and its `out_`.
pub open spec fn exited(bs: Seq<Proc>, s: Site) -> Seq<Proc> {
    let b = bs[s.target];
    let a = body(b)[s.requester];
    let moved = Proc::Amb(name(a), consume(body(a), s.capability));
    let grant = if s.requester < s.grant {
        s.grant - 1
    } else {
        s.grant
    };
    let host = Proc::Amb(name(b), consume(body(b).remove(s.requester), grant));
    splice(bs, s.target, seq![moved, host])
}

/// The scope after the dissolution that `s` describes: the processes of
/// the target, without its `open_`, stand where the target stood, and the
/// requester has lost its `open`.
pub open spec fn opened(bs: Seq<Proc>, s: Site) -> Seq<Proc> {
    let freed = consume(body(bs[s.target]), s.grant);
    if s.requester < s.target {
        consume(splice(bs, s.target, freed), s.requester)
    } else {
        splice(consume(bs, s.requester), s.target, freed)
    }
}

/// The scope after the reduction that `s` describes in it.
pub open spec fn fired(bs: Seq<Proc>, s: Site) -> Seq<Proc> {
    match s.rule {
        Rule::Entry => entered(bs, s),
        Rule::Exit => exited(bs, s),
        Rule::Dissolution => opened(bs, s),
    }
}

/// The processes `bs` after the reduction that `s` describes in the scope
/// reached along `path`.
pub open spec fn rewrite_in(bs: Seq<Proc>, path: Seq<int>, s: Site) -> Seq<Proc>
    decreases path.len(),
{
    if path.len() == 0 {
        fired(bs, s)
    } else {
        let p = path[0];
        bs.update(p, Proc::Amb(name(bs[p]), rewrite_in(body(bs[p]), path.drop_first(), s)))
    }
}

/// The processes of a term after the reduction at `s`.
pub open spec fn rewrite(bs: Seq<Proc>, s: Site) -> Seq<Proc> {
    rewrite_in(bs, s.scope, s)
}

/// The number of capabilities and co-capabilities in `ps`.
pub open spec fn weight(ps: Seq<Proc>) -> nat
    decreases ps,
{
    if ps.len() == 0 {
        0
    } else {
        weight(ps.drop_last()) + weigh(ps.last())
    }
}

/// The number of capabilities and co-capabilities in `p`.
pub open spec fn weigh(p: Proc) -> nat
    decreases p,
{
    match p {
        Proc::Amb(_, ps) => weight(ps),
        Proc::Act(_, _) => 1,
        Proc::Then(f, r) => weight(f) + weight(r),
    }
}

proof fn lemma_weight_add(a: Seq<Proc>, b: Seq<Proc>)
    ensures
        weight(a + b) == weight(a) + weight(b),
    decreases b.len(),
{
    if b.len() == 0 {
        assert(a + b =~= a);
    } else {
        lemma_weight_add(a, b.drop_last());
        assert((a + b).drop_last() =~= a + b.drop_last());
    }
}

proof fn lemma_weight_one(p: Proc)
    ensures
        weight(seq![p]) == weigh(p),
{
    assert(seq![p].drop_last() =~= Seq::<Proc>::empty());
    assert(weight(Seq::<Proc>::empty()) == 0);
}

proof fn lemma_weight_splice(ps: Seq<Proc>, k: int, items: Seq<Proc>)
    requires
        0 <= k < ps.len(),
    ensures
        weight(splice(ps, k, items)) + weigh(ps[k]) == weight(ps) + weight(items),
{
    let before = ps.take(k);
    let after = ps.skip(k + 1);
    lemma_weight_add(before, items);
    lemma_weight_add(before + items, after);
    lemma_weight_one(ps[k]);
    lemma_weight_add(before, seq![ps[k]]);
    lemma_weight_add(before + seq![ps[k]], after);
    assert(before + seq![ps[k]] + after =~= ps);
}

proof fn lemma_weight_consume(ps: Seq<Proc>, k: int)
    requires
        0 <= k < ps.len(),
        head(ps[k]) is Some,
    ensures
        weight(consume(ps, k)) + 1 == weight(ps),
{
    lemma_weight_splice(ps, k, rest(ps[k]));
    match ps[k] {
        Proc::Then(f, r) => {
            lemma_weight_one(f[0]);
            assert(f =~= seq![f[0]]);
        },
        _ => {
            assert(rest(ps[k]) =~= Seq::<Proc>::empty());
        },
    }
}

proof fn lemma_weight_entered(bs: Seq<Proc>, s: Site)
    requires
        enters(bs, s),
    ensures
        weight(entered(bs, s)) + 2 == weight(bs),
{
    let a = bs[s.requester];
    let b = bs[s.target];
    let moved = Proc::Amb(name(a), consume(body(a), s.capability));
    let inside = consume(body(b), s.grant);
    let host = Proc::Amb(name(b), inside.push(moved));
    lemma_weight_consume(body(a), s.capability);
    lemma_weight_consume(body(b), s.grant);
    lemma_weight_one(moved);
    lemma_weight_add(inside, seq![moved]);
    assert(inside.push(moved) =~= inside + seq![moved]);
    let mid = bs.update(s.target, host);
    lemma_weight_splice(bs, s.target, seq![host]);
    lemma_weight_one(host);
    assert(mid =~= splice(bs, s.target, seq![host]));
    lemma_weight_splice(mid, s.requester, Seq::empty());
    assert(mid.remove(s.requester) =~= splice(mid, s.requester, Seq::empty()));
}

proof fn lemma_weight_exited(bs: Seq<Proc>, s: Site)
    requires
        exits(bs, s),
    ensures
        weight(exited(bs, s)) + 2 == weight(bs),
{
    let b = bs[s.target];
    let a = body(b)[s.requester];
    let moved = Proc::Amb(name(a), consume(body(a), s.capability));
    let grant = if s.requester < s.grant {
        s.grant - 1
    } else {
        s.grant
    };
    let left = body(b).remove(s.requester);
    let host = Proc::Amb(name(b), consume(left, grant));
    lemma_weight_consume(body(a), s.capability);
    lemma_weight_splice(body(b), s.requester, Seq::empty());
    assert(left =~= splice(body(b), s.requester, Seq::empty()));
    assert(left[grant] == body(b)[s.grant]);
    lemma_weight_consume(left, grant);
    lemma_weight_splice(bs, s.target, seq![moved, host]);
    lemma_weight_one(moved);
    lemma_weight_one(host);
    lemma_weight_add(seq![moved], seq![host]);
    assert(seq![moved, host] =~= seq![moved] + seq![host]);
}

proof fn lemma_weight_opened(bs: Seq<Proc>, owner: Option<Seq<char>>, s: Site)
    requires
        opens(bs, owner, s),
    ensures
        weight(opened(bs, s)) + 2 == weight(bs),
{
    let freed = consume(body(bs[s.target]), s.grant);
    lemma_weight_consume(body(bs[s.target]), s.grant);
    if s.requester < s.target {
        let mid = splice(bs, s.target, freed);
        lemma_weight_splice(bs, s.target, freed);
        assert(mid[s.requester] == bs[s.requester]);
        lemma_weight_consume(mid, s.requester);
    } else {
        let mid = consume(bs, s.requester);
        lemma_weight_consume(bs, s.requester);
        assert(mid[s.target] == bs[s.target]);
        lemma_weight_splice(mid, s.target, freed);
    }
}

/// Every reduction uses up one capability and one co-capability.
pub proof fn lemma_rewrite_weight(bs: Seq<Proc>, owner: Option<Seq<char>>, path: Seq<int>, s: Site)
    requires
        valid_in(bs, owner, path, s),
    ensures
        weight(rewrite_in(bs, path, s)) + 2 == weight(bs),
    decreases path.len(),
{
    if path.len() == 0 {
        match s.rule {
            Rule::Entry => lemma_weight_entered(bs, s),
            Rule::Exit => lemma_weight_exited(bs, s),
            Rule::Dissolution => lemma_weight_opened(bs, owner, s),
        }
    } else {
        let p = path[0];
        let inside = rewrite_in(body(bs[p]), path.drop_first(), s);
        let child = Proc::Amb(name(bs[p]), inside);
        lemma_rewrite_weight(body(bs[p]), Some(name(bs[p])), path.drop_first(), s);
        lemma_weight_splice(bs, p, seq![child]);
        lemma_weight_one(child);
        assert(bs.update(p, child) =~= splice(bs, p, seq![child]));
    }
}

/// Puts `items` into `ps` before position `k`.
fn put_at(ps: &mut Vec<Process>, k: usize, items: Vec<Process>)
    requires
        k <= old(ps).len(),
    ensures
        final(ps).len() == old(ps).len() + items.len(),
        procs_of(final(ps)@) == procs_of(old(ps)@).take(k as int) + procs_of(items@) + procs_of(
            old(ps)@,
        ).skip(k as int),
{
    let ghost before = ps@;
    let ghost added = items@;
    let mut items = items;
    let mut tail = ps.split_off(k);
    ps.append(&mut items);
    ps.append(&mut tail);
    assert(procs_of(ps@) =~= procs_of(before).take(k as int) + procs_of(added) + procs_of(
        before,
    ).skip(k as int));
}

/// Takes the process at `k` out of `ps`.
fn take_out(ps: &mut Vec<Process>, k: usize) -> (p: Process)
    requires
        k < old(ps).len(),
    ensures
        final(ps).len() == old(ps).len() - 1,
        p@ == procs_of(old(ps)@)[k as int],
        procs_of(final(ps)@) == procs_of(old(ps)@).remove(k as int),
{
    let ghost before = ps@;
    let p = ps.remove(k);
    assert(procs_of(ps@) =~= procs_of(before).remove(k as int));
    p
}

/// Puts `p` into `ps` at position `k`.
fn put_in(ps: &mut Vec<Process>, k: usize, p: Process)
    requires
        k <= old(ps).len(),
    ensures
        final(ps).len() == old(ps).len() + 1,
        procs_of(final(ps)@) == procs_of(old(ps)@).insert(k as int, p@),
{
    let ghost before = ps@;
    ps.insert(k, p);
    assert(procs_of(ps@) =~= procs_of(before).insert(k as int, p@));
}

/// Consumes the head of the process at `k`.
fn consume_at(ps: &mut Vec<Process>, k: usize)
    requires
        k < old(ps).len(),
    ensures
        final(ps).len() == old(ps).len() - 1 + rest(procs_of(old(ps)@)[k as int]).len(),
        procs_of(final(ps)@) == consume(procs_of(old(ps)@), k as int),
{
    let ghost before = procs_of(ps@);
    let p = take_out(ps, k);
    let released = match p {
        Process::Then(_, r) => r,
        _ => Vec::new(),
    };
    assert(procs_of(released@) =~= rest(before[k as int]));
    put_at(ps, k, released);
    assert(procs_of(ps@) =~= consume(before, k as int));
}

fn enter(bs: &mut Vec<Process>, site: &RedexSite)
    requires
        enters(procs_of(old(bs)@), site@),
    ensures
        procs_of(final(bs)@) == entered(procs_of(old(bs)@), site@),
{
    let ghost before = procs_of(bs@);
    assert(before.len() == bs.len());
    let r = site.requester;
    let t = site.target;
    let (a, b) = if r < t {
        let b = take_out(bs, t);
        let a = take_out(bs, r);
        (a, b)
    } else {
        let a = take_out(bs, r);
        let b = take_out(bs, t);
        (a, b)
    };
    let at = if r < t {
        (t - 1) as usize
    } else {
        t
    };
    match (a, b) {
        (Process::Amb(n, mut inside), Process::Amb(m, mut host)) => {
            consume_at(&mut inside, site.capability);
            consume_at(&mut host, site.grant);
            let ghost settled = procs_of(host@);
            let moved = Process::Amb(n, inside);
            host.push(moved);
            assert(procs_of(host@) =~= settled.push(moved@));
            put_in(bs, at, Process::Amb(m, host));
            assert(procs_of(bs@) =~= entered(before, site@));
        },
        _ => {
            assert(false);
        },
    }
}

fn leave(bs: &mut Vec<Process>, site: &RedexSite)
    requires
        exits(procs_of(old(bs)@), site@),
    ensures
        procs_of(final(bs)@) == exited(procs_of(old(bs)@), site@),
{
    let ghost before = procs_of(bs@);
    assert(before.len() == bs.len());
    let t = site.target;
    let b = take_out(bs, t);
    match b {
        Process::Amb(m, mut host) => {
            let a = take_out(&mut host, site.requester);
            let grant = if site.requester < site.grant {
                (site.grant - 1) as usize
            } else {
                site.grant
            };
            consume_at(&mut host, grant);
            match a {
                Process::Amb(n, mut inside) => {
                    consume_at(&mut inside, site.capability);
                    put_in(bs, t, Process::Amb(m, host));
                    put_in(bs, t, Process::Amb(n, inside));
                    assert(procs_of(bs@) =~= exited(before, site@));
                },
                _ => {
                    assert(false);
                },
            }
        },
        _ => {
            assert(false);
        },
    }
}

fn dissolve(bs: &mut Vec<Process>, site: &RedexSite, Ghost(owner): Ghost<Option<Seq<char>>>)
    requires
        opens(procs_of(old(bs)@), owner, site@),
    ensures
        procs_of(final(bs)@) == opened(procs_of(old(bs)@), site@),
{
    let ghost before = procs_of(bs@);
    assert(before.len() == bs.len());
    let r = site.requester;
    let t = site.target;
    if r < t {
        let b = take_out(bs, t);
        match b {
            Process::Amb(_, mut freed) => {
                consume_at(&mut freed, site.grant);
                put_at(bs, t, freed);
                assert(procs_of(bs@) =~= splice(before, t as int, procs_of(freed@)));
                consume_at(bs, r);
            },
            _ => {
                assert(false);
            },
        }
    } else {
        consume_at(bs, r);
        let ghost mid = procs_of(bs@);
        let b = take_out(bs, t);
        match b {
            Process::Amb(_, mut freed) => {
                consume_at(&mut freed, site.grant);
                put_at(bs, t, freed);
                assert(procs_of(bs@) =~= splice(mid, t as int, procs_of(freed@)));
            },
            _ => {
                assert(false);
            },
        }
    }
}

/// Performs the reduction at `site`, in the scope reached by the rest of
/// its path from position `depth` on.
pub(crate) fn rewrite_along(
    bs: &mut Vec<Process>,
    site: &RedexSite,
    depth: usize,
    Ghost(owner): Ghost<Option<Seq<char>>>,
)
    requires
        depth <= site.scope.len(),
        valid_in(procs_of(old(bs)@), owner, site@.scope.skip(depth as int), site@),
    ensures
        procs_of(final(bs)@) == rewrite_in(
            procs_of(old(bs)@),
            site@.scope.skip(depth as int),
            site@,
        ),
    decreases site.scope.len() - depth,
{
    let ghost before = procs_of(bs@);
    assert(before.len() == bs.len());
    let ghost path = site@.scope.skip(depth as int);
    if depth == site.scope.len() {
        match site.rule {
            Rule::Entry => enter(bs, site),
            Rule::Exit => leave(bs, site),
            Rule::Dissolution => dissolve(bs, site, Ghost(owner)),
        }
    } else {
        let p = site.scope[depth];
        assert(path[0] == p as int);
        assert(path.drop_first() =~= site@.scope.skip(depth + 1));
        let child = take_out(bs, p);
        match child {
            Process::Amb(n, mut inside) => {
                rewrite_along(&mut inside, site, depth + 1, Ghost(Some(n@)));
                put_in(bs, p, Process::Amb(n, inside));
                assert(procs_of(bs@) =~= rewrite_in(before, path, site@));
            },
            _ => {
                assert(false);
            },
        }
    }
}

} // verus!
