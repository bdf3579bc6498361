//! The reduction engine: one step, and reduction to normal form.
//!
//! A term either holds a redex or is in normal form; there is no third
//! state. Every step uses up a capability and a co-capability, so every
//! reduction comes to an end.

use vstd::prelude::*;
use crate::ast::Exec;
use crate::process::{Proc, compose, get_children, lemma_shape_compose, procs_of, raise, shape};
use crate::redex::{
    RedexSite, Site, earliest, find_in, is_redex_in, lemma_quiet_is_normal, normal, valid,
};
use crate::display::well_formed;
use crate::names::{
    all_sound, lemma_compose_well_formed, lemma_rewrite_sound, lemma_shape_sound,
};
use crate::rewrite::{lemma_rewrite_weight, rewrite, rewrite_along, weight};

verus! {

/// `s` is a redex that a step may take in the term with processes `bs`: a
/// redex in the first scope that holds one.
pub open spec fn takes(bs: Seq<Proc>, s: Site) -> bool {
    valid(bs, s) && earliest(bs, None, s.scope)
}

/// The processes reached from `bs` by the reductions of `trace`, one after
/// the other, if each of them is a redex that a step may take when its turn
/// comes.
pub open spec fn run(bs: Seq<Proc>, trace: Seq<Site>) -> Option<Seq<Proc>>
    decreases trace.len(),
{
    if trace.len() == 0 {
        Some(bs)
    } else {
        match run(bs, trace.drop_last()) {
            Some(mid) => if takes(mid, trace.last()) {
                Some(rewrite(mid, trace.last()))
            } else {
                None
            },
            None => None,
        }
    }
}

/// `to` can be reached from `from` by steps.
pub open spec fn reduces_to(from: Seq<Proc>, to: Seq<Proc>) -> bool {
    exists|trace: Seq<Site>| run(from, trace) == Some(to)
}

/// A normal form reduces to itself and to nothing else.
pub proof fn lemma_normal_form_stays(bs: Seq<Proc>, to: Seq<Proc>)
    requires
        normal(bs),
    ensures
        reduces_to(bs, to) <==> to == bs,
{
    assert(run(bs, Seq::<Site>::empty()) == Some(bs));
    if reduces_to(bs, to) {
        let trace = choose|trace: Seq<Site>| run(bs, trace) == Some(to);
        lemma_no_step_from_normal(bs, trace);
    }
}

proof fn lemma_no_step_from_normal(bs: Seq<Proc>, trace: Seq<Site>)
    requires
        normal(bs),
        run(bs, trace) is Some,
    ensures
        trace.len() == 0,
        run(bs, trace) == Some(bs),
    decreases trace.len(),
{
    if trace.len() > 0 {
        lemma_no_step_from_normal(bs, trace.drop_last());
        assert(!valid(bs, trace.last()));
    }
}

/// Every step uses up two capabilities: a reduction of `n` steps leaves
/// `2 * n` capabilities less.
pub proof fn lemma_run_weight(bs: Seq<Proc>, trace: Seq<Site>)
    requires
        run(bs, trace) is Some,
    ensures
        weight(run(bs, trace)->Some_0) + 2 * trace.len() == weight(bs),
    decreases trace.len(),
{
    if trace.len() > 0 {
        lemma_run_weight(bs, trace.drop_last());
        let mid = run(bs, trace.drop_last())->Some_0;
        lemma_rewrite_weight(mid, None, trace.last().scope, trace.last());
    }
}

/// Performs the reduction at `site`.
///
/// The result is `None` when `site` is no redex of `ast`. Otherwise it is
/// the term whose processes are those of `ast` after the reduction, written
/// without superfluous grouping; it has two capabilities less than `ast`
/// and is well formed if `ast` is.
pub fn apply_transitions_recursive(ast: &Exec, site: &RedexSite) -> (r: Option<Exec>)
    ensures
        r is Some <==> valid(shape(ast@), site@),
        r matches Some(next) ==> next@ == compose(rewrite(shape(ast@), site@)),
        r matches Some(next) ==> weight(shape(next@)) + 2 == weight(shape(ast@)),
        r matches Some(next) ==> (well_formed(ast@) ==> well_formed(next@)),
{
    let mut scope = get_children(ast);
    assert(site@.scope.skip(0) =~= site@.scope);
    if is_redex_in(&scope, None, site, 0) {
        proof {
            lemma_rewrite_weight(shape(ast@), None, site@.scope, site@);
            lemma_shape_compose(rewrite(shape(ast@), site@));
            if well_formed(ast@) {
                lemma_shape_sound(ast@);
                lemma_rewrite_sound(shape(ast@), None, site@.scope, site@);
                lemma_compose_well_formed(rewrite(shape(ast@), site@));
            }
        }
        rewrite_along(&mut scope, site, 0, Ghost(None));
        Some(raise(&scope))
    } else {
        None
    }
}

/// Performs one reduction, if `ast` holds a redex.
///
/// The result is `None` exactly when `ast` is in normal form. Otherwise it
/// is `ast` after the reduction at one of its redexes, taken from the first
/// scope that holds one; it has two capabilities less than `ast` and is
/// well formed if `ast` is.
pub fn step(ast: &Exec) -> (r: Option<Exec>)
    ensures
        r is None <==> normal(shape(ast@)),
        r matches Some(next) ==> exists|s: Site|
            takes(shape(ast@), s) && next@ == compose(rewrite(shape(ast@), s)),
        r matches Some(next) ==> weight(shape(next@)) + 2 == weight(shape(ast@)),
        r matches Some(next) ==> (well_formed(ast@) ==> well_formed(next@)),
{
    let mut scope = get_children(ast);
    match find_in(&scope, None) {
        Some(site) => {
            assert(site@.scope.skip(0) =~= site@.scope);
            proof {
                lemma_rewrite_weight(shape(ast@), None, site@.scope, site@);
                lemma_shape_compose(rewrite(shape(ast@), site@));
                if well_formed(ast@) {
                    lemma_shape_sound(ast@);
                    lemma_rewrite_sound(shape(ast@), None, site@.scope, site@);
                    lemma_compose_well_formed(rewrite(shape(ast@), site@));
                }
            }
            rewrite_along(&mut scope, &site, 0, Ghost(None));
            let next = raise(&scope);
            assert(takes(shape(ast@), site@) && next@ == compose(rewrite(shape(ast@), site@)));
            Some(next)
        },
        None => {
            proof {
                assert forall|s: Site| !valid(shape(ast@), s) by {
                    lemma_quiet_is_normal(shape(ast@), None, s.scope, s);
                }
            }
            None
        },
    }
}

/// Reduces `ast` to normal form.
///
/// A term in normal form is returned as it is. Any other term is reduced
/// step by step until no rule applies, and the result is written without
/// superfluous grouping. The result of a well-formed term is well formed.
pub fn reduce_to_normal_form(ast: Exec) -> (r: Exec)
    ensures
        normal(shape(r@)),
        reduces_to(shape(ast@), shape(r@)),
        normal(shape(ast@)) ==> r == ast,
        well_formed(ast@) ==> well_formed(r@),
{
    let mut scope = get_children(&ast);
    let ghost start = shape(ast@);
    let ghost mut trace: Seq<Site> = Seq::empty();
    let mut moved = false;
    proof {
        if well_formed(ast@) {
            lemma_shape_sound(ast@);
        }
    }
    loop
        invariant
            well_formed(ast@) ==> all_sound(procs_of(scope@)),
            run(start, trace) == Some(procs_of(scope@)),
            start == shape(ast@),
            !moved ==> procs_of(scope@) == start,
            moved ==> !normal(start),
        ensures
            normal(procs_of(scope@)),
        decreases weight(procs_of(scope@)),
    {
        match find_in(&scope, None) {
            Some(site) => {
                let ghost before = procs_of(scope@);
                assert(site@.scope.skip(0) =~= site@.scope);
                proof {
                    lemma_rewrite_weight(before, None, site@.scope, site@);
                    if well_formed(ast@) {
                        lemma_rewrite_sound(before, None, site@.scope, site@);
                    }
                    if !moved {
                        assert(valid(start, site@));
                    }
                }
                rewrite_along(&mut scope, &site, 0, Ghost(None));
                proof {
                    assert(trace.push(site@).drop_last() =~= trace);
                    trace = trace.push(site@);
                }
                moved = true;
            },
            None => {
                proof {
                    assert forall|s: Site| !valid(procs_of(scope@), s) by {
                        lemma_quiet_is_normal(procs_of(scope@), None, s.scope, s);
                    }
                }
                break ;
            },
        }
    }
    if moved {
        let r = raise(&scope);
        proof {
            lemma_shape_compose(procs_of(scope@));
            if well_formed(ast@) {
                lemma_compose_well_formed(procs_of(scope@));
            }
        }
        r
    } else {
        ast
    }
}

} // verus!
