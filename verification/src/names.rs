//! Names are kept.
//!
//! The parser yields terms whose names are names, and no reduction makes a
//! name or changes one. So whatever a program reduces to can be written
//! and read back: the result of a program is a program.

use vstd::prelude::*;
use crate::ast::Term;
use crate::display::{is_legal_name, show, well_formed};
use crate::lexer::{
    Grammar, Lexeme, is_name, is_word, is_wordlike, classify, lemma_scan_bounds,
    lemma_scan_word, lex, scan, tokens,
};
use crate::parser::{
    Miss, action, is_capability, is_co_capability, kind_at, parse_atom, parse_atoms,
    parse_parallel, parse_serial, parse_serials, parse_text,
};
use crate::process::{
    Cap, Proc, chain, compose, lemma_shape_compose, shape, shapes, steps, unit, units,
};
use crate::redex::{Rule, Site, body, name, rest, valid, valid_in, wildcard};
use crate::reducer::{reduces_to, run, takes};
use crate::rewrite::{consume, entered, exited, fired, opened, rewrite, rewrite_in, splice};
use crate::roundtrip::lemma_parse_show;

verus! {

/// The actions that carry an authorization.
pub open spec fn is_grant(c: Cap) -> bool {
    c == Cap::CoIn || c == Cap::CoOut || c == Cap::CoOpen
}

/// Every name in `p` is a legal name, and every authorization a legal
/// name or the wildcard.
pub open spec fn sound(p: Proc) -> bool
    decreases p,
{
    match p {
        Proc::Amb(n, ps) => is_legal_name(n) && all_sound(ps),
        Proc::Act(c, n) => is_legal_name(n) || (is_grant(c) && n == wildcard()),
        Proc::Then(f, r) => all_sound(f) && all_sound(r),
    }
}

/// All of `ps` are sound.
pub open spec fn all_sound(ps: Seq<Proc>) -> bool
    decreases ps,
{
    forall|k: int| 0 <= k < ps.len() ==> sound(#[trigger] ps[k])
}

proof fn lemma_sound_add(a: Seq<Proc>, b: Seq<Proc>)
    requires
        all_sound(a),
        all_sound(b),
    ensures
        all_sound(a + b),
{
    assert forall|k: int| 0 <= k < (a + b).len() implies sound(#[trigger] (a + b)[k]) by {
        if k < a.len() {
            assert((a + b)[k] == a[k]);
        } else {
            assert((a + b)[k] == b[k - a.len()]);
        }
    }
}

proof fn lemma_sound_one(p: Proc)
    requires
        sound(p),
    ensures
        all_sound(seq![p]),
{
}

proof fn lemma_sound_part(ps: Seq<Proc>, from: int, to: int)
    requires
        all_sound(ps),
        0 <= from <= to <= ps.len(),
    ensures
        all_sound(ps.subrange(from, to)),
{
    assert forall|k: int| 0 <= k < to - from implies sound(#[trigger] ps.subrange(from, to)[k]) by {
        assert(ps.subrange(from, to)[k] == ps[from + k]);
    }
}

/// The processes of a well-formed term are sound.
pub proof fn lemma_shape_sound(t: Term)
    requires
        well_formed(t),
    ensures
        all_sound(shape(t)),
    decreases t,
{
    match t {
        Term::Parallel(ts) => lemma_shapes_sound(ts),
        Term::Serial(ts) => lemma_chain_sound(ts),
        Term::Noop(n) => {
            assert(all_sound(Seq::<Proc>::empty()));
            lemma_sound_one(Proc::Amb(n, Seq::empty()));
        },
        Term::Ambient(n, b) => {
            lemma_shape_sound(*b);
            lemma_sound_one(Proc::Amb(n, shape(*b)));
        },
        Term::Group(b) => {
            lemma_shape_sound(*b);
        },
        Term::Open(n) => lemma_sound_one(Proc::Act(Cap::Open, n)),
        Term::Open_(n) => lemma_sound_one(Proc::Act(Cap::CoOpen, n)),
        Term::In(n) => lemma_sound_one(Proc::Act(Cap::In, n)),
        Term::In_(n) => lemma_sound_one(Proc::Act(Cap::CoIn, n)),
        Term::Out(n) => lemma_sound_one(Proc::Act(Cap::Out, n)),
        Term::Out_(n) => lemma_sound_one(Proc::Act(Cap::CoOut, n)),
    }
}

proof fn lemma_shapes_sound(ts: Seq<Term>)
    requires
        forall|k: int| 0 <= k < ts.len() ==> well_formed(#[trigger] ts[k]),
    ensures
        all_sound(shapes(ts)),
    decreases ts,
{
    if ts.len() > 0 {
        assert forall|k: int| 0 <= k < ts.drop_last().len() implies well_formed(
            #[trigger] ts.drop_last()[k],
        ) by {
            assert(ts.drop_last()[k] == ts[k]);
        }
        lemma_shapes_sound(ts.drop_last());
        lemma_shape_sound(ts.last());
        lemma_sound_add(shapes(ts.drop_last()), shape(ts.last()));
    }
}

proof fn lemma_chain_sound(ts: Seq<Term>)
    requires
        forall|k: int| 0 <= k < ts.len() ==> well_formed(#[trigger] ts[k]),
    ensures
        all_sound(chain(ts)),
    decreases ts,
{
    if ts.len() > 0 {
        lemma_shape_sound(ts[0]);
        if ts.len() > 1 {
            assert forall|k: int| 0 <= k < ts.drop_first().len() implies well_formed(
                #[trigger] ts.drop_first()[k],
            ) by {
                assert(ts.drop_first()[k] == ts[k + 1]);
            }
            lemma_chain_sound(ts.drop_first());
        }
    }
}

/// The term that is written for sound processes is well formed.
pub proof fn lemma_compose_well_formed(ps: Seq<Proc>)
    requires
        all_sound(ps),
    ensures
        well_formed(compose(ps)),
    decreases ps, 2nat,
{
    if ps.len() == 1 {
        lemma_unit_well_formed(ps[0]);
    } else {
        assert forall|k: int| 0 <= k < units(ps).len() implies well_formed(
            #[trigger] units(ps)[k],
        ) by {
            assert(sound(ps[k]));
            lemma_unit_well_formed(ps[k]);
        }
        assert(Term::Parallel(units(ps))->Parallel_0 == units(ps));
    }
}

proof fn lemma_unit_well_formed(p: Proc)
    requires
        sound(p),
    ensures
        well_formed(unit(p)),
    decreases p, 0nat,
{
    match p {
        Proc::Amb(n, ps) => {
            if ps.len() > 0 {
                lemma_compose_well_formed(ps);
            }
        },
        Proc::Act(c, n) => {
            match c {
                Cap::In => {},
                Cap::Out => {},
                Cap::Open => {},
                Cap::CoIn => {},
                Cap::CoOut => {},
                Cap::CoOpen => {},
            }
        },
        Proc::Then(f, r) => {
            lemma_compose_well_formed(f);
            lemma_steps_well_formed(r);
            let items = seq![compose(f)] + steps(r);
            assert forall|k: int| 0 <= k < items.len() implies well_formed(#[trigger] items[k]) by {
                if k > 0 {
                    assert(items[k] == steps(r)[k - 1]);
                }
            }
            assert(Term::Serial(items)->Serial_0 == items);
        },
    }
}

proof fn lemma_steps_well_formed(r: Seq<Proc>)
    requires
        all_sound(r),
    ensures
        forall|k: int| 0 <= k < steps(r).len() ==> well_formed(#[trigger] steps(r)[k]),
    decreases r, 3nat,
{
    if r.len() == 1 && r[0] is Then {
        assert(sound(r[0]));
        lemma_compose_well_formed(r[0]->Then_0);
        lemma_steps_well_formed(r[0]->Then_1);
        let items = seq![compose(r[0]->Then_0)] + steps(r[0]->Then_1);
        assert forall|k: int| 0 <= k < items.len() implies well_formed(#[trigger] items[k]) by {
            if k > 0 {
                assert(items[k] == steps(r[0]->Then_1)[k - 1]);
            }
        }
    } else {
        lemma_compose_well_formed(r);
    }
}

proof fn lemma_splice_sound(ps: Seq<Proc>, k: int, items: Seq<Proc>)
    requires
        all_sound(ps),
        all_sound(items),
        0 <= k < ps.len(),
    ensures
        all_sound(splice(ps, k, items)),
{
    lemma_sound_part(ps, 0, k);
    lemma_sound_part(ps, k + 1, ps.len() as int);
    lemma_sound_add(ps.take(k), items);
    lemma_sound_add(ps.take(k) + items, ps.skip(k + 1));
}

proof fn lemma_consume_sound(ps: Seq<Proc>, k: int)
    requires
        all_sound(ps),
        0 <= k < ps.len(),
    ensures
        all_sound(consume(ps, k)),
{
    assert(sound(ps[k]));
    assert(all_sound(rest(ps[k]))) by {
        match ps[k] {
            Proc::Then(f, r) => {},
            _ => {},
        }
    }
    lemma_splice_sound(ps, k, rest(ps[k]));
}

proof fn lemma_fired_sound(bs: Seq<Proc>, owner: Option<Seq<char>>, s: Site)
    requires
        all_sound(bs),
        crate::redex::fires(bs, owner, s),
    ensures
        all_sound(fired(bs, s)),
{
    match s.rule {
        Rule::Entry => {
            let a = bs[s.requester];
            let b = bs[s.target];
            assert(sound(a));
            assert(sound(b));
            lemma_consume_sound(body(a), s.capability);
            lemma_consume_sound(body(b), s.grant);
            let moved = Proc::Amb(name(a), consume(body(a), s.capability));
            let inside = consume(body(b), s.grant);
            lemma_sound_one(moved);
            lemma_sound_add(inside, seq![moved]);
            assert(inside.push(moved) =~= inside + seq![moved]);
            let host = Proc::Amb(name(b), inside.push(moved));
            lemma_sound_one(host);
            lemma_splice_sound(bs, s.target, seq![host]);
            let mid = bs.update(s.target, host);
            assert(mid =~= splice(bs, s.target, seq![host]));
            lemma_splice_sound(mid, s.requester, Seq::empty());
            assert(mid.remove(s.requester) =~= splice(mid, s.requester, Seq::empty()));
        },
        Rule::Exit => {
            let b = bs[s.target];
            assert(sound(b));
            let a = body(b)[s.requester];
            assert(sound(a));
            lemma_consume_sound(body(a), s.capability);
            let moved = Proc::Amb(name(a), consume(body(a), s.capability));
            let grant = if s.requester < s.grant {
                s.grant - 1
            } else {
                s.grant
            };
            let left = body(b).remove(s.requester);
            lemma_splice_sound(body(b), s.requester, Seq::empty());
            assert(left =~= splice(body(b), s.requester, Seq::empty()));
            lemma_consume_sound(left, grant);
            let host = Proc::Amb(name(b), consume(left, grant));
            lemma_sound_one(moved);
            lemma_sound_one(host);
            lemma_sound_add(seq![moved], seq![host]);
            assert(seq![moved, host] =~= seq![moved] + seq![host]);
            lemma_splice_sound(bs, s.target, seq![moved, host]);
        },
        Rule::Dissolution => {
            assert(sound(bs[s.target]));
            lemma_consume_sound(body(bs[s.target]), s.grant);
            let freed = consume(body(bs[s.target]), s.grant);
            if s.requester < s.target {
                lemma_splice_sound(bs, s.target, freed);
                lemma_consume_sound(splice(bs, s.target, freed), s.requester);
            } else {
                lemma_consume_sound(bs, s.requester);
                lemma_splice_sound(consume(bs, s.requester), s.target, freed);
            }
        },
    }
}

/// A reduction of sound processes leaves sound processes.
pub proof fn lemma_rewrite_sound(bs: Seq<Proc>, owner: Option<Seq<char>>, path: Seq<int>, s: Site)
    requires
        all_sound(bs),
        valid_in(bs, owner, path, s),
    ensures
        all_sound(rewrite_in(bs, path, s)),
    decreases path.len(),
{
    if path.len() == 0 {
        lemma_fired_sound(bs, owner, s);
    } else {
        let p = path[0];
        assert(sound(bs[p]));
        lemma_rewrite_sound(body(bs[p]), Some(name(bs[p])), path.drop_first(), s);
        let child = Proc::Amb(name(bs[p]), rewrite_in(body(bs[p]), path.drop_first(), s));
        lemma_sound_one(child);
        lemma_splice_sound(bs, p, seq![child]);
        assert(bs.update(p, child) =~= splice(bs, p, seq![child]));
    }
}

/// Whatever sound processes reduce to is sound.
pub proof fn lemma_run_sound(bs: Seq<Proc>, trace: Seq<Site>)
    requires
        all_sound(bs),
        run(bs, trace) is Some,
    ensures
        all_sound(run(bs, trace)->Some_0),
    decreases trace.len(),
{
    if trace.len() > 0 {
        lemma_run_sound(bs, trace.drop_last());
        let mid = run(bs, trace.drop_last())->Some_0;
        lemma_rewrite_sound(mid, None, trace.last().scope, trace.last());
    }
}

/// Every token of `lx` with the kind of a name is a legal name.
pub open spec fn names_are_names(lx: Seq<Lexeme>) -> bool {
    forall|k: int|
        0 <= k < lx.len() ==> (is_name((#[trigger] lx[k]).kind) ==> is_legal_name(lx[k].text))
}

/// The lexer gives the kind of a name to legal names only.
pub proof fn lemma_lex_names(s: Seq<char>, pos: int)
    requires
        0 <= pos <= s.len(),
    ensures
        names_are_names(lex(s, pos)),
    decreases s.len() - pos,
{
    lemma_scan_bounds(s, pos);
    let t = scan(s, pos);
    if is_word(t.kind) {
        lemma_scan_word(s, pos);
    }
    if t.kind != Grammar::End {
        lemma_lex_names(s, t.end);
        let rest = lex(s, t.end);
        let all = seq![t] + rest;
        assert forall|k: int| 0 <= k < all.len() implies (is_name((#[trigger] all[k]).kind)
            ==> is_legal_name(all[k].text)) by {
            if k > 0 {
                assert(all[k] == rest[k - 1]);
            }
        }
    }
}

proof fn lemma_action_well_formed(kind: Grammar, n: Seq<char>)
    requires
        is_legal_name(n) || (is_co_capability(kind) && n == wildcard()),
        is_capability(kind) || is_co_capability(kind),
    ensures
        well_formed(action(kind, n)),
{
}

proof fn lemma_atom_well_formed(lx: Seq<Lexeme>, i: int)
    requires
        names_are_names(lx),
    ensures
        parse_atom(lx, i) matches Ok(found) ==> well_formed(found.0),
    decreases lx.len() - i, 0nat,
{
    let kind = kind_at(lx, i);
    let next = kind_at(lx, i + 1);
    if is_name(kind) {
        assert(is_legal_name(lx[i].text));
        if next == Grammar::A_ && kind_at(lx, i + 2) != Grammar::_A {
            lemma_parallel_well_formed(lx, i + 2);
        }
    } else if is_capability(kind) {
        if is_name(next) {
            assert(is_legal_name(lx[i + 1].text));
            lemma_action_well_formed(kind, lx[i + 1].text);
        }
    } else if is_co_capability(kind) {
        if is_name(next) {
            assert(is_legal_name(lx[i + 1].text));
            lemma_action_well_formed(kind, lx[i + 1].text);
        } else {
            lemma_action_well_formed(kind, wildcard());
        }
    } else if kind == Grammar::P_ {
        if next == Grammar::_P {
            let nothing = Term::Parallel(Seq::empty());
            assert(nothing->Parallel_0 =~= Seq::<Term>::empty());
            assert(well_formed(nothing));
        } else {
            lemma_parallel_well_formed(lx, i + 1);
        }
    }
}

proof fn lemma_atoms_well_formed(lx: Seq<Lexeme>, i: int)
    requires
        names_are_names(lx),
    ensures
        parse_atoms(lx, i) matches Ok(found) ==> forall|k: int|
            0 <= k < found.0.len() ==> well_formed(#[trigger] found.0[k]),
    decreases lx.len() - i, 1nat,
{
    lemma_atom_well_formed(lx, i);
    match parse_atom(lx, i) {
        Ok((first, j)) => {
            if j >= i && kind_at(lx, j) == Grammar::Wait {
                lemma_atoms_well_formed(lx, j + 1);
                match parse_atoms(lx, j + 1) {
                    Ok((others, end)) => {
                        let all = seq![first] + others;
                        assert forall|k: int| 0 <= k < all.len() implies well_formed(
                            #[trigger] all[k],
                        ) by {
                            if k > 0 {
                                assert(all[k] == others[k - 1]);
                            }
                        }
                    },
                    Err(_) => {},
                }
            }
        },
        Err(_) => {},
    }
}

proof fn lemma_serial_well_formed(lx: Seq<Lexeme>, i: int)
    requires
        names_are_names(lx),
    ensures
        parse_serial(lx, i) matches Ok(found) ==> well_formed(found.0),
    decreases lx.len() - i, 2nat,
{
    lemma_atoms_well_formed(lx, i);
    match parse_atoms(lx, i) {
        Ok((items, j)) => {
            if items.len() == 1 {
                assert(well_formed(items[0]));
            } else {
                assert(Term::Serial(items)->Serial_0 == items);
            }
        },
        Err(_) => {},
    }
}

proof fn lemma_serials_well_formed(lx: Seq<Lexeme>, i: int)
    requires
        names_are_names(lx),
    ensures
        parse_serials(lx, i) matches Ok(found) ==> forall|k: int|
            0 <= k < found.0.len() ==> well_formed(#[trigger] found.0[k]),
    decreases lx.len() - i, 3nat,
{
    lemma_serial_well_formed(lx, i);
    match parse_serial(lx, i) {
        Ok((first, j)) => {
            if j >= i && kind_at(lx, j) == Grammar::Parallel {
                lemma_serials_well_formed(lx, j + 1);
                match parse_serials(lx, j + 1) {
                    Ok((others, end)) => {
                        let all = seq![first] + others;
                        assert forall|k: int| 0 <= k < all.len() implies well_formed(
                            #[trigger] all[k],
                        ) by {
                            if k > 0 {
                                assert(all[k] == others[k - 1]);
                            }
                        }
                    },
                    Err(_) => {},
                }
            }
        },
        Err(_) => {},
    }
}

proof fn lemma_parallel_well_formed(lx: Seq<Lexeme>, i: int)
    requires
        names_are_names(lx),
    ensures
        parse_parallel(lx, i) matches Ok(found) ==> well_formed(found.0),
    decreases lx.len() - i, 4nat,
{
    lemma_serials_well_formed(lx, i);
    match parse_serials(lx, i) {
        Ok((items, j)) => {
            if items.len() == 1 {
                assert(well_formed(items[0]));
            } else {
                assert(Term::Parallel(items)->Parallel_0 == items);
            }
        },
        Err(_) => {},
    }
}

/// Every program is well formed: the parser yields no term with a name
/// that it would not read.
pub proof fn lemma_parsed_well_formed(s: Seq<char>)
    ensures
        parse_text(s) matches Ok(t) ==> well_formed(t),
{
    lemma_lex_names(s, 0);
    lemma_parallel_well_formed(tokens(s), 0);
}

/// The result of a program is a program: whatever a program reduces to,
/// its text is read back as a term with the processes that were reached.
pub proof fn lemma_result_is_a_program(s: Seq<char>, ps: Seq<Proc>)
    requires
        parse_text(s) is Ok,
        reduces_to(shape(parse_text(s)->Ok_0), ps),
    ensures
        parse_text(show(compose(ps))) is Ok,
        shape(parse_text(show(compose(ps)))->Ok_0) == ps,
{
    let t = parse_text(s)->Ok_0;
    lemma_parsed_well_formed(s);
    lemma_shape_sound(t);
    let trace = choose|trace: Seq<Site>| run(shape(t), trace) == Some(ps);
    lemma_run_sound(shape(t), trace);
    lemma_compose_well_formed(ps);
    lemma_parse_show(compose(ps));
    lemma_shape_compose(ps);
}

/// The text without superfluous grouping is stable: reading it and
/// writing it again in the same way gives the same text.
pub proof fn lemma_plain_text_is_stable(t: Term)
    requires
        well_formed(t),
    ensures
        parse_text(show(compose(shape(t)))) is Ok,
        show(compose(shape(parse_text(show(compose(shape(t))))->Ok_0))) == show(
            compose(shape(t)),
        ),
{
    lemma_shape_sound(t);
    lemma_compose_well_formed(shape(t));
    lemma_parse_show(compose(shape(t)));
    lemma_shape_compose(shape(t));
}

} // verus!
