//! The three reduction rules and the search for a place where one applies.
//!
//! A redex is a capability and a co-capability that are ready at the same
//! time and stand in the position that their rule asks for:
//!
//! * entry: `a[in b.P | Q] | b[in_ a.R | S]` becomes `b[R | S | a[P | Q]]`;
//! * exit: `b[a[out b.P | Q] | out_ a.R | S]` becomes `a[P | Q] | b[R | S]`;
//! * dissolution: `open b.P | b[open_.R | S]` becomes `P | R | S`.
//!
//! A co-capability grants its rule to the ambient that it names, or to
//! anyone when it carries the wildcard `*`.

use vstd::prelude::*;
use vstd::string::StringExecFns;
use crate::ast::Exec;
use crate::process::{Cap, Proc, Process, get_children, proc_of, procs_of, shape};

verus! {

/// The kind of a reduction.
#[derive(Debug, Clone, Copy, PartialEq, Eq, Structural)]
pub enum Rule {
    /// `in` meets `in_`.
    Entry,
    /// `out` meets `out_`.
    Exit,
    /// `open` meets `open_`.
    Dissolution,
}

/// Where a rule applies in a term.
///
/// `scope` leads from the root to the scope of the reduction: each element
/// is the position of an ambient among the processes of the scope before it.
/// In that scope,
///
/// * for an entry, `requester` is the ambient that moves and `target` the
///   sibling it moves into;
/// * for an exit, `target` is the ambient that is left and `requester` the
///   position, among the processes of `target`, of the ambient that leaves;
/// * for a dissolution, `requester` is the process that holds `open` and
///   `target` the ambient that dissolves.
///
/// `capability` is the position of the capability among the processes of the
/// requesting ambient (0 for a dissolution), and `grant` that of the
/// co-capability among the processes of `target`.
#[derive(Debug)]
pub struct RedexSite {
    pub rule: Rule,
    pub scope: Vec<usize>,
    pub requester: usize,
    pub capability: usize,
    pub target: usize,
    pub grant: usize,
}

/// The mathematical value of a [`RedexSite`].
pub struct Site {
    pub rule: Rule,
    pub scope: Seq<int>,
    pub requester: int,
    pub capability: int,
    pub target: int,
    pub grant: int,
}

impl View for RedexSite {
    type V = Site;

    open spec fn view(&self) -> Site {
        Site {
            rule: self.rule,
            scope: self.scope@.map_values(|p: usize| p as int),
            requester: self.requester as int,
            capability: self.capability as int,
            target: self.target as int,
            grant: self.grant as int,
        }
    }
}

/// The authorization that admits everyone.
pub open spec fn wildcard() -> Seq<char> {
    seq!['*']
}

/// The action that a process is ready to perform, if it is ready for one: a
/// capability standing alone is ready, and so is the first part of a
/// sequence when that part is a capability.
pub open spec fn head(p: Proc) -> Option<(Cap, Seq<char>)> {
    match p {
        Proc::Act(c, n) => Some((c, n)),
        Proc::Then(f, r) => if f.len() == 1 && f[0] is Act {
            Some((f[0]->Act_0, f[0]->Act_1))
        } else {
            None
        },
        Proc::Amb(_, _) => None,
    }
}

/// What a process leaves behind when its head has been consumed.
pub open spec fn rest(p: Proc) -> Seq<Proc> {
    match p {
        Proc::Then(f, r) => r,
        _ => Seq::empty(),
    }
}

/// `p` is ready to perform `c` on the ambient `m`. The empty name matches
/// nothing.
pub open spec fn wants(p: Proc, c: Cap, m: Seq<char>) -> bool {
    head(p) == Some((c, m)) && m.len() > 0
}

/// `p` is ready to allow `co` to the ambient `who`: its authorization is
/// the wildcard, or the name of `who`.
pub open spec fn grants(p: Proc, co: Cap, who: Option<Seq<char>>) -> bool {
    match head(p) {
        Some((c, auth)) => c == co && (auth == wildcard() || (auth.len() > 0 && who == Some(
            auth,
        ))),
        None => false,
    }
}

/// The name of an ambient.
pub open spec fn name(p: Proc) -> Seq<char> {
    p->Amb_0
}

/// The processes inside an ambient.
pub open spec fn body(p: Proc) -> Seq<Proc> {
    p->Amb_1
}

/// An entry applies among the processes `bs`, at the positions that `s` gives.
pub open spec fn enters(bs: Seq<Proc>, s: Site) -> bool {
    &&& 0 <= s.requester < bs.len()
    &&& 0 <= s.target < bs.len()
    &&& s.requester != s.target
    &&& bs[s.requester] is Amb
    &&& bs[s.target] is Amb
    &&& 0 <= s.capability < body(bs[s.requester]).len()
    &&& 0 <= s.grant < body(bs[s.target]).len()
    &&& wants(body(bs[s.requester])[s.capability], Cap::In, name(bs[s.target]))
    &&& grants(body(bs[s.target])[s.grant], Cap::CoIn, Some(name(bs[s.requester])))
}

/// An exit applies among the processes `bs`, at the positions that `s` gives.
pub open spec fn exits(bs: Seq<Proc>, s: Site) -> bool {
    &&& 0 <= s.target < bs.len()
    &&& bs[s.target] is Amb
    &&& 0 <= s.requester < body(bs[s.target]).len()
    &&& body(bs[s.target])[s.requester] is Amb
    &&& 0 <= s.capability < body(body(bs[s.target])[s.requester]).len()
    &&& 0 <= s.grant < body(bs[s.target]).len()
    &&& wants(
        body(body(bs[s.target])[s.requester])[s.capability],
        Cap::Out,
        name(bs[s.target]),
    )
    &&& grants(
        body(bs[s.target])[s.grant],
        Cap::CoOut,
        Some(name(body(bs[s.target])[s.requester])),
    )
}

/// A dissolution applies among the processes `bs` of the ambient `owner`,
/// at the positions that `s` gives. At the root, where no ambient encloses
/// the scope, only the wildcard grants it.
pub open spec fn opens(bs: Seq<Proc>, owner: Option<Seq<char>>, s: Site) -> bool {
    &&& 0 <= s.requester < bs.len()
    &&& 0 <= s.target < bs.len()
    &&& bs[s.target] is Amb
    &&& s.capability == 0
    &&& 0 <= s.grant < body(bs[s.target]).len()
    &&& wants(bs[s.requester], Cap::Open, name(bs[s.target]))
    &&& grants(body(bs[s.target])[s.grant], Cap::CoOpen, owner)
}

/// The rule of `s` applies among the processes `bs` of the ambient `owner`.
pub open spec fn fires(bs: Seq<Proc>, owner: Option<Seq<char>>, s: Site) -> bool {
    match s.rule {
        Rule::Entry => enters(bs, s),
        Rule::Exit => exits(bs, s),
        Rule::Dissolution => opens(bs, owner, s),
    }
}

/// `s` is a redex of the scope with processes `bs` and owner `owner`, to be
/// reached from there along `path`.
pub open spec fn valid_in(bs: Seq<Proc>, owner: Option<Seq<char>>, path: Seq<int>, s: Site) -> bool
    decreases path.len(),
{
    if path.len() == 0 {
        fires(bs, owner, s)
    } else {
        let p = path[0];
        &&& 0 <= p < bs.len()
        &&& bs[p] is Amb
        &&& valid_in(body(bs[p]), Some(name(bs[p])), path.drop_first(), s)
    }
}

/// `s` is a redex of the term whose processes are `bs`.
pub open spec fn valid(bs: Seq<Proc>, s: Site) -> bool {
    valid_in(bs, None, s.scope, s)
}

/// No rule applies anywhere in the term whose processes are `bs`: the term
/// is in normal form.
pub open spec fn normal(bs: Seq<Proc>) -> bool {
    forall|s: Site| !valid(bs, s)
}

/// No rule applies in the scope with processes `bs` and owner `owner`, nor
/// in any scope below it.
pub open spec fn quiet(bs: Seq<Proc>, owner: Option<Seq<char>>) -> bool
    decreases bs,
{
    &&& forall|s: Site| !fires(bs, owner, s)
    &&& forall|p: int|
        0 <= p < bs.len() && #[trigger] bs[p] is Amb ==> quiet(body(bs[p]), Some(name(bs[p])))
}

/// The scope at the end of `path` is the first in which a rule could apply,
/// going from the root down and from left to right: on the way to it no
/// rule applies in a scope passed through, nor anywhere in an ambient that
/// stands to the left of the way.
pub open spec fn earliest(bs: Seq<Proc>, owner: Option<Seq<char>>, path: Seq<int>) -> bool
    decreases path.len(),
{
    if path.len() == 0 {
        true
    } else {
        let p = path[0];
        &&& forall|s: Site| !fires(bs, owner, s)
        &&& forall|x: int|
            0 <= x < p && #[trigger] bs[x] is Amb ==> quiet(body(bs[x]), Some(name(bs[x])))
        &&& 0 <= p < bs.len()
        &&& bs[p] is Amb
        &&& earliest(body(bs[p]), Some(name(bs[p])), path.drop_first())
    }
}

/// A scope that is quiet holds no redex, whatever the path.
pub proof fn lemma_quiet_is_normal(bs: Seq<Proc>, owner: Option<Seq<char>>, path: Seq<int>, s: Site)
    requires
        quiet(bs, owner),
    ensures
        !valid_in(bs, owner, path, s),
    decreases path.len(),
{
    if path.len() > 0 {
        let p = path[0];
        if 0 <= p < bs.len() && bs[p] is Amb {
            lemma_quiet_is_normal(body(bs[p]), Some(name(bs[p])), path.drop_first(), s);
        }
    }
}

/// The name that an optional reference stands for.
pub open spec fn who_of(who: Option<&String>) -> Option<Seq<char>> {
    match who {
        Some(n) => Some(n@),
        None => None,
    }
}

pub(crate) fn everyone() -> (n: String)
    ensures
        n@ == wildcard(),
{
    proof {
        reveal_strlit("*");
    }
    let n = String::from_str("*");
    assert(n@ =~= wildcard());
    n
}

pub(crate) fn is_wildcard(s: &String) -> (r: bool)
    ensures
        r == (s@ == wildcard()),
{
    let t = s.as_str();
    if t.unicode_len() == 1 {
        let c = t.get_char(0);
        assert(c == '*' ==> s@ =~= wildcard());
        c == '*'
    } else {
        false
    }
}

fn head_of(p: &Process) -> (r: Option<(Cap, &String)>)
    ensures
        match r {
            Some((c, n)) => head(p@) == Some((c, n@)),
            None => head(p@) is None,
        },
{
    match p {
        Process::Act(c, n) => Some((*c, n)),
        Process::Then(f, _) => {
            if f.len() == 1 {
                assert(procs_of(f@)[0] == proc_of(f@[0]));
                match &f[0] {
                    Process::Act(c, n) => Some((*c, n)),
                    _ => None,
                }
            } else {
                None
            }
        },
        Process::Amb(_, _) => None,
    }
}

fn wants_it(p: &Process, c: Cap, m: &String) -> (r: bool)
    ensures
        r == wants(p@, c, m@),
{
    match head_of(p) {
        Some((d, n)) => d == c && *n == *m && !m.as_str().is_empty(),
        None => false,
    }
}

fn grants_it(p: &Process, co: Cap, who: Option<&String>) -> (r: bool)
    ensures
        r == grants(p@, co, who_of(who)),
{
    match head_of(p) {
        Some((c, auth)) => {
            if c != co {
                false
            } else if is_wildcard(auth) {
                true
            } else if auth.as_str().is_empty() {
                false
            } else {
                match who {
                    Some(n) => *n == *auth,
                    None => false,
                }
            }
        },
        None => false,
    }
}

/// The first process of `ps` that grants `co` to `who`.
fn grant_index(ps: &Vec<Process>, co: Cap, who: Option<&String>) -> (r: Option<usize>)
    ensures
        match r {
            Some(l) => l < ps.len() && grants(procs_of(ps@)[l as int], co, who_of(who)),
            None => forall|l: int|
                0 <= l < ps.len() ==> !grants(#[trigger] procs_of(ps@)[l], co, who_of(who)),
        },
{
    let mut l: usize = 0;
    while l < ps.len()
        invariant
            l <= ps.len(),
            forall|x: int| 0 <= x < l ==> !grants(#[trigger] procs_of(ps@)[x], co, who_of(who)),
        decreases ps.len() - l,
    {
        if grants_it(&ps[l], co, who) {
            return Some(l);
        }
        l += 1;
    }
    None
}

/// The first process of `ps` that wants `c` on `m`.
fn want_index(ps: &Vec<Process>, c: Cap, m: &String) -> (r: Option<usize>)
    ensures
        match r {
            Some(k) => k < ps.len() && wants(procs_of(ps@)[k as int], c, m@),
            None => forall|k: int| 0 <= k < ps.len() ==> !wants(#[trigger] procs_of(ps@)[k], c, m@),
        },
{
    let mut k: usize = 0;
    while k < ps.len()
        invariant
            k <= ps.len(),
            forall|x: int| 0 <= x < k ==> !wants(#[trigger] procs_of(ps@)[x], c, m@),
        decreases ps.len() - k,
    {
        if wants_it(&ps[k], c, m) {
            return Some(k);
        }
        k += 1;
    }
    None
}

/// The first ambient of `bs` other than `skip` that is named `m` and
/// grants `co` to `who`, with the position of the grant in it.
fn host_index(bs: &Vec<Process>, m: &String, co: Cap, who: Option<&String>, skip: usize) -> (r:
    Option<(usize, usize)>)
    ensures
        match r {
            Some((j, l)) => {
                let b = procs_of(bs@)[j as int];
                &&& j < bs.len()
                &&& j != skip
                &&& b is Amb
                &&& name(b) == m@
                &&& l < body(b).len()
                &&& grants(body(b)[l as int], co, who_of(who))
            },
            None => forall|j: int, l: int|
                #![trigger body(procs_of(bs@)[j])[l]]
                {
                    let b = procs_of(bs@)[j];
                    0 <= j < bs.len() && j != skip && b is Amb && name(b) == m@ && 0 <= l < body(
                        b,
                    ).len() ==> !grants(body(b)[l], co, who_of(who))
                },
        },
{
    let mut j: usize = 0;
    while j < bs.len()
        invariant
            j <= bs.len(),
            forall|x: int, l: int|
                #![trigger body(procs_of(bs@)[x])[l]]
                {
                    let b = procs_of(bs@)[x];
                    0 <= x < j && x != skip && b is Amb && name(b) == m@ && 0 <= l < body(b).len()
                        ==> !grants(body(b)[l], co, who_of(who))
                },
        decreases bs.len() - j,
    {
        if j != skip {
            match &bs[j] {
                Process::Amb(n, inside) => {
                    assert(body(procs_of(bs@)[j as int]) == procs_of(inside@));
                    if *n == *m {
                        match grant_index(inside, co, who) {
                            Some(l) => {
                                return Some((j, l));
                            },
                            None => {},
                        }
                    }
                },
                _ => {},
            }
        }
        j += 1;
    }
    None
}

/// The site of rule `rule` at the given positions of the scope at hand.
pub open spec fn here(rule: Rule, requester: int, capability: int, target: int, grant: int) -> Site
{
    Site { rule, scope: Seq::empty(), requester, capability, target, grant }
}

/// Whether a site is a redex does not depend on the path that the site
/// itself records, only on the path followed.
pub proof fn lemma_valid_in_positions(
    bs: Seq<Proc>,
    owner: Option<Seq<char>>,
    path: Seq<int>,
    s: Site,
    t: Site,
)
    requires
        s.rule == t.rule,
        s.requester == t.requester,
        s.capability == t.capability,
        s.target == t.target,
        s.grant == t.grant,
    ensures
        valid_in(bs, owner, path, s) == valid_in(bs, owner, path, t),
    decreases path.len(),
{
    if path.len() > 0 {
        let p = path[0];
        if 0 <= p < bs.len() && bs[p] is Amb {
            lemma_valid_in_positions(body(bs[p]), Some(name(bs[p])), path.drop_first(), s, t);
        }
    }
}

fn site_here(rule: Rule, requester: usize, capability: usize, target: usize, grant: usize) -> (r:
    RedexSite)
    ensures
        r@ == here(rule, requester as int, capability as int, target as int, grant as int),
{
    let r = RedexSite { rule, scope: Vec::new(), requester, capability, target, grant };
    assert(r@.scope =~= Seq::<int>::empty());
    r
}

/// An entry of the ambient at `i`, which is `n[inside]`, into a sibling.
fn entry_from(bs: &Vec<Process>, i: usize, n: &String, inside: &Vec<Process>) -> (r: Option<
    RedexSite,
>)
    requires
        i < bs.len(),
        procs_of(bs@)[i as int] == Proc::Amb(n@, procs_of(inside@)),
    ensures
        match r {
            Some(s) => s@.rule == Rule::Entry && s@.scope.len() == 0 && enters(procs_of(bs@), s@),
            None => forall|s: Site| s.requester == i ==> !enters(procs_of(bs@), s),
        },
{
    let mut k: usize = 0;
    while k < inside.len()
        invariant
            k <= inside.len(),
            i < bs.len(),
            procs_of(bs@)[i as int] == Proc::Amb(n@, procs_of(inside@)),
            forall|s: Site|
                s.requester == i && 0 <= s.capability < k ==> !enters(procs_of(bs@), s),
        decreases inside.len() - k,
    {
        let found = match head_of(&inside[k]) {
            Some((c, m)) => {
                if c == Cap::In && !m.as_str().is_empty() {
                    host_index(bs, m, Cap::CoIn, Some(n), i)
                } else {
                    None
                }
            },
            None => None,
        };
        match found {
            Some((j, l)) => {
                return Some(site_here(Rule::Entry, i, k, j, l));
            },
            None => {},
        }
        k += 1;
    }
    None
}

/// An exit from the ambient at `t`, which is `m[inside]`, of one of the
/// ambients in it.
fn exit_from(bs: &Vec<Process>, t: usize, m: &String, inside: &Vec<Process>) -> (r: Option<
    RedexSite,
>)
    requires
        t < bs.len(),
        procs_of(bs@)[t as int] == Proc::Amb(m@, procs_of(inside@)),
    ensures
        match r {
            Some(s) => s@.rule == Rule::Exit && s@.scope.len() == 0 && exits(procs_of(bs@), s@),
            None => forall|s: Site| s.target == t ==> !exits(procs_of(bs@), s),
        },
{
    let mut q: usize = 0;
    while q < inside.len()
        invariant
            q <= inside.len(),
            t < bs.len(),
            procs_of(bs@)[t as int] == Proc::Amb(m@, procs_of(inside@)),
            forall|s: Site| s.target == t && 0 <= s.requester < q ==> !exits(procs_of(bs@), s),
        decreases inside.len() - q,
    {
        match &inside[q] {
            Process::Amb(n, within) => {
                assert(procs_of(inside@)[q as int] == Proc::Amb(n@, procs_of(within@)));
                match want_index(within, Cap::Out, m) {
                    Some(k) => {
                        match grant_index(inside, Cap::CoOut, Some(n)) {
                            Some(l) => {
                                return Some(site_here(Rule::Exit, q, k, t, l));
                            },
                            None => {},
                        }
                    },
                    None => {},
                }
            },
            _ => {},
        }
        q += 1;
    }
    None
}

/// A dissolution asked for by the process at `i`.
fn open_from(bs: &Vec<Process>, owner: Option<&String>, i: usize) -> (r: Option<RedexSite>)
    requires
        i < bs.len(),
    ensures
        match r {
            Some(s) => s@.rule == Rule::Dissolution && s@.scope.len() == 0 && opens(
                procs_of(bs@),
                who_of(owner),
                s@,
            ),
            None => forall|s: Site| s.requester == i ==> !opens(procs_of(bs@), who_of(owner), s),
        },
{
    match head_of(&bs[i]) {
        Some((c, m)) => {
            if c == Cap::Open && !m.as_str().is_empty() {
                match host_index(bs, m, Cap::CoOpen, owner, i) {
                    Some((j, l)) => Some(site_here(Rule::Dissolution, i, 0, j, l)),
                    None => None,
                }
            } else {
                None
            }
        },
        None => None,
    }
}

/// A redex among the processes `bs` themselves.
fn find_here(bs: &Vec<Process>, owner: Option<&String>) -> (r: Option<RedexSite>)
    ensures
        match r {
            Some(s) => s@.scope.len() == 0 && fires(procs_of(bs@), who_of(owner), s@),
            None => forall|s: Site| !fires(procs_of(bs@), who_of(owner), s),
        },
{
    let mut i: usize = 0;
    while i < bs.len()
        invariant
            i <= bs.len(),
            forall|s: Site| 0 <= s.requester < i ==> !enters(procs_of(bs@), s),
            forall|s: Site| 0 <= s.target < i ==> !exits(procs_of(bs@), s),
            forall|s: Site| 0 <= s.requester < i ==> !opens(procs_of(bs@), who_of(owner), s),
        decreases bs.len() - i,
    {
        match &bs[i] {
            Process::Amb(n, inside) => {
                assert(procs_of(bs@)[i as int] == Proc::Amb(n@, procs_of(inside@)));
                match entry_from(bs, i, n, inside) {
                    Some(s) => {
                        return Some(s);
                    },
                    None => {},
                }
                match exit_from(bs, i, n, inside) {
                    Some(s) => {
                        return Some(s);
                    },
                    None => {},
                }
            },
            _ => {
                match open_from(bs, owner, i) {
                    Some(s) => {
                        return Some(s);
                    },
                    None => {},
                }
            },
        }
        i += 1;
    }
    None
}

/// A redex in the scope with processes `bs`, or in a scope below it.
pub(crate) fn find_in(bs: &Vec<Process>, owner: Option<&String>) -> (r: Option<RedexSite>)
    ensures
        match r {
            Some(s) => valid_in(procs_of(bs@), who_of(owner), s@.scope, s@) && earliest(
                procs_of(bs@),
                who_of(owner),
                s@.scope,
            ),
            None => quiet(procs_of(bs@), who_of(owner)),
        },
    decreases bs,
{
    match find_here(bs, owner) {
        Some(s) => {
            return Some(s);
        },
        None => {},
    }
    let mut p: usize = 0;
    while p < bs.len()
        invariant
            p <= bs.len(),
            forall|s: Site| !fires(procs_of(bs@), who_of(owner), s),
            forall|x: int|
                0 <= x < p && #[trigger] procs_of(bs@)[x] is Amb ==> quiet(
                    body(procs_of(bs@)[x]),
                    Some(name(procs_of(bs@)[x])),
                ),
        decreases bs.len() - p,
    {
        match &bs[p] {
            Process::Amb(n, inside) => {
                assert(procs_of(bs@)[p as int] == Proc::Amb(n@, procs_of(inside@)));
                match find_in(inside, Some(n)) {
                    Some(s) => {
                        let ghost below = s@;
                        let mut scope = s.scope;
                        scope.insert(0, p);
                        let r = RedexSite {
                            rule: s.rule,
                            scope,
                            requester: s.requester,
                            capability: s.capability,
                            target: s.target,
                            grant: s.grant,
                        };
                        proof {
                            assert(r@.scope.drop_first() =~= below.scope);
                            lemma_valid_in_positions(
                                procs_of(inside@),
                                Some(n@),
                                below.scope,
                                below,
                                r@,
                            );
                        }
                        return Some(r);
                    },
                    None => {},
                }
            },
            _ => {},
        }
        p += 1;
    }
    None
}

fn enters_here(bs: &Vec<Process>, site: &RedexSite) -> (r: bool)
    ensures
        r == enters(procs_of(bs@), site@),
{
    if site.requester >= bs.len() || site.target >= bs.len() || site.requester == site.target {
        return false;
    }
    let ghost ps = procs_of(bs@);
    assert(ps[site.requester as int] == proc_of(bs@[site.requester as int]));
    assert(ps[site.target as int] == proc_of(bs@[site.target as int]));
    match (&bs[site.requester], &bs[site.target]) {
        (Process::Amb(n, a), Process::Amb(m, b)) => {
            assert(body(ps[site.requester as int]) == procs_of(a@));
            assert(body(ps[site.target as int]) == procs_of(b@));
            site.capability < a.len() && site.grant < b.len() && wants_it(
                &a[site.capability],
                Cap::In,
                m,
            ) && grants_it(&b[site.grant], Cap::CoIn, Some(n))
        },
        _ => false,
    }
}

fn exits_here(bs: &Vec<Process>, site: &RedexSite) -> (r: bool)
    ensures
        r == exits(procs_of(bs@), site@),
{
    if site.target >= bs.len() {
        return false;
    }
    let ghost ps = procs_of(bs@);
    assert(ps[site.target as int] == proc_of(bs@[site.target as int]));
    match &bs[site.target] {
        Process::Amb(m, b) => {
            assert(body(ps[site.target as int]) == procs_of(b@));
            if site.requester >= b.len() || site.grant >= b.len() {
                return false;
            }
            assert(procs_of(b@)[site.requester as int] == proc_of(b@[site.requester as int]));
            match &b[site.requester] {
                Process::Amb(n, a) => {
                    assert(body(procs_of(b@)[site.requester as int]) == procs_of(a@));
                    site.capability < a.len() && wants_it(&a[site.capability], Cap::Out, m)
                        && grants_it(&b[site.grant], Cap::CoOut, Some(n))
                },
                _ => false,
            }
        },
        _ => false,
    }
}

fn opens_here(bs: &Vec<Process>, owner: Option<&String>, site: &RedexSite) -> (r: bool)
    ensures
        r == opens(procs_of(bs@), who_of(owner), site@),
{
    if site.requester >= bs.len() || site.target >= bs.len() || site.capability != 0 {
        return false;
    }
    let ghost ps = procs_of(bs@);
    assert(ps[site.requester as int] == proc_of(bs@[site.requester as int]));
    assert(ps[site.target as int] == proc_of(bs@[site.target as int]));
    match &bs[site.target] {
        Process::Amb(m, b) => {
            assert(body(ps[site.target as int]) == procs_of(b@));
            site.grant < b.len() && wants_it(&bs[site.requester], Cap::Open, m) && grants_it(
                &b[site.grant],
                Cap::CoOpen,
                owner,
            )
        },
        _ => false,
    }
}

/// Whether `site` is a redex of the scope with processes `bs`, reached by
/// the rest of its path from position `depth` on.
pub(crate) fn is_redex_in(
    bs: &Vec<Process>,
    owner: Option<&String>,
    site: &RedexSite,
    depth: usize,
) -> (r: bool)
    requires
        depth <= site.scope.len(),
    ensures
        r == valid_in(procs_of(bs@), who_of(owner), site@.scope.skip(depth as int), site@),
    decreases site.scope.len() - depth,
{
    let ghost path = site@.scope.skip(depth as int);
    if depth == site.scope.len() {
        match site.rule {
            Rule::Entry => enters_here(bs, site),
            Rule::Exit => exits_here(bs, site),
            Rule::Dissolution => opens_here(bs, owner, site),
        }
    } else {
        let p = site.scope[depth];
        assert(path[0] == p as int);
        assert(path.drop_first() =~= site@.scope.skip(depth + 1));
        if p >= bs.len() {
            return false;
        }
        match &bs[p] {
            Process::Amb(n, inside) => is_redex_in(inside, Some(n), site, depth + 1),
            _ => false,
        }
    }
}

impl RedexSite {
    /// Whether this site is a redex of `ast`.
    pub fn applies_to(&self, ast: &Exec) -> (r: bool)
        ensures
            r == valid(shape(ast@), self@),
    {
        let scope = get_children(ast);
        assert(self@.scope.skip(0) =~= self@.scope);
        is_redex_in(&scope, None, self, 0)
    }
}

/// A place in `ast` where a rule applies, if there is one.
///
/// The scopes are searched from the root down, each scope before the
/// scopes inside it, and in a scope the processes from left to right.
pub fn find_redex(ast: &Exec) -> (r: Option<RedexSite>)
    ensures
        match r {
            Some(s) => valid(shape(ast@), s@) && earliest(shape(ast@), None, s@.scope),
            None => normal(shape(ast@)),
        },
{
    let scope = get_children(ast);
    let r = find_in(&scope, None);
    proof {
        if r is None {
            assert forall|s: Site| !valid(shape(ast@), s) by {
                lemma_quiet_is_normal(shape(ast@), None, s.scope, s);
            }
        }
    }
    r
}

/// Whether any rule applies in `ast`.
pub fn can_reduce(ast: &Exec) -> (r: bool)
    ensures
        r == !normal(shape(ast@)),
{
    find_redex(ast).is_some()
}

} // verus!
