//! Reading back what was written.
//!
//! The text that the printer writes for a term is a program, and the
//! program is a term with the same processes: the printer and the parser
//! agree on every term whose names are names.

use vstd::prelude::*;
use crate::ast::Term;
use crate::congruence::{congruent_terms, lemma_same_shape_congruent};
use crate::display::{
    Tok, action_toks, fixed, gap, inner_toks, is_legal_name, is_nothing, joined, last_kind,
    level_under, named, render, show, toks_of, well_formed, word, wrapped,
};
use crate::lexer::{
    Grammar, Lexeme, classify, is_blank, is_keyword, is_name_char, is_word, is_wordlike,
    lemma_classify_word, lemma_scan_bounds, lemma_skip_blank, lex, scan, skip_blank, symbol,
    tokens, word_end,
};
use crate::parser::{
    Miss, kind_at, parse_atom, parse_atoms, parse_parallel, parse_serial, parse_serials,
    parse_text,
};
use crate::process::{Proc, chain, shape, shapes};
use crate::redex::wildcard;

verus! {

/// A token that the lexer can give back: a word with the kind of that word,
/// or a symbol with its kind.
pub open spec fn is_writable(t: Tok) -> bool {
    ||| is_wordlike(t.text) && t.kind == classify(t.text)
    ||| t.text.len() == 1 && symbol(t.text[0]) == Some(t.kind)
}

/// All of `toks` are writable.
pub open spec fn all_writable(toks: Seq<Tok>) -> bool {
    forall|k: int| 0 <= k < toks.len() ==> is_writable(#[trigger] toks[k])
}

/// The token that a lexeme is an occurrence of.
pub open spec fn plain(l: Lexeme) -> Tok {
    Tok { kind: l.kind, text: l.text }
}

/// The tokens `lx[i..]` begin with the tokens `toks`.
pub open spec fn spelled(lx: Seq<Lexeme>, i: int, toks: Seq<Tok>) -> bool {
    &&& 0 <= i
    &&& i + toks.len() <= lx.len()
    &&& forall|k: int| 0 <= k < toks.len() ==> plain(#[trigger] lx[i + k]) == toks[k]
}

/// Where the first `k` tokens of `toks` end in the text of `toks`.
pub open spec fn end_of(toks: Seq<Tok>, k: int) -> int {
    render(toks.take(k)).len() as int
}

proof fn lemma_render_step(toks: Seq<Tok>, k: int)
    requires
        0 <= k < toks.len(),
    ensures
        render(toks.take(k + 1)) == render(toks.take(k)) + gap(
            last_kind(toks.take(k)),
            toks[k].kind,
        ) + toks[k].text,
{
    assert(toks.take(k + 1).drop_last() =~= toks.take(k));
}

proof fn lemma_render_prefix(toks: Seq<Tok>, k: int)
    requires
        0 <= k <= toks.len(),
    ensures
        end_of(toks, k) <= render(toks).len(),
        render(toks).subrange(0, end_of(toks, k)) == render(toks.take(k)),
    decreases toks.len() - k,
{
    if k == toks.len() {
        assert(toks.take(k) =~= toks);
        assert(render(toks).subrange(0, render(toks).len() as int) =~= render(toks));
    } else {
        lemma_render_prefix(toks, k + 1);
        lemma_render_step(toks, k);
        let longer = render(toks.take(k + 1));
        assert(longer.subrange(0, end_of(toks, k)) =~= render(toks.take(k)));
        assert(render(toks).subrange(0, end_of(toks, k)) =~= render(toks).subrange(
            0,
            end_of(toks, k + 1),
        ).subrange(0, end_of(toks, k)));
    }
}

/// The text of `toks` holds, after the first `k` tokens, the gap before
/// token `k` and then its characters.
proof fn lemma_render_at(toks: Seq<Tok>, k: int)
    requires
        0 <= k < toks.len(),
    ensures
        end_of(toks, k + 1) <= render(toks).len(),
        end_of(toks, k + 1) == end_of(toks, k) + gap(last_kind(toks.take(k)), toks[k].kind).len()
            + toks[k].text.len(),
        render(toks).subrange(end_of(toks, k), end_of(toks, k + 1)) == gap(
            last_kind(toks.take(k)),
            toks[k].kind,
        ) + toks[k].text,
{
    lemma_render_prefix(toks, k);
    lemma_render_prefix(toks, k + 1);
    lemma_render_step(toks, k);
    let s = render(toks);
    let a = end_of(toks, k);
    let b = end_of(toks, k + 1);
    assert(s.subrange(a, b) =~= s.subrange(0, b).subrange(a, b));
    assert(render(toks.take(k + 1)).subrange(a, b) =~= gap(
        last_kind(toks.take(k)),
        toks[k].kind,
    ) + toks[k].text);
}

proof fn lemma_word_run(s: Seq<char>, start: int, end: int)
    requires
        0 <= start <= end <= s.len(),
        forall|i: int| start <= i < end ==> is_name_char(#[trigger] s[i]),
        end < s.len() ==> !is_name_char(s[end]),
    ensures
        word_end(s, start) == end,
    decreases end - start,
{
    if start < end {
        lemma_word_run(s, start + 1, end);
    }
}

/// A writable token begins with a character that is no blank, and a word is
/// followed in the text by a character that belongs to no word.
proof fn lemma_first_char(t: Tok)
    requires
        is_writable(t),
    ensures
        t.text.len() > 0,
        !is_blank(t.text[0]),
        is_name_char(t.text[0]) <==> is_word(t.kind),
        is_word(t.kind) ==> is_wordlike(t.text) && t.kind == classify(t.text),
        !is_word(t.kind) ==> t.text.len() == 1 && symbol(t.text[0]) == Some(t.kind),
{
    lemma_classify_word(t.text);
    if is_wordlike(t.text) && t.kind == classify(t.text) {
        assert(is_name_char(t.text[0]));
    }
}

/// The scan of the text of `toks` from the end of token `k - 1` finds
/// token `k`.
proof fn lemma_scan_rendered(toks: Seq<Tok>, k: int)
    requires
        all_writable(toks),
        0 <= k < toks.len(),
    ensures
        plain(scan(render(toks), end_of(toks, k))) == toks[k],
        scan(render(toks), end_of(toks, k)).end == end_of(toks, k + 1),
{
    let s = render(toks);
    let a = end_of(toks, k);
    let b = end_of(toks, k + 1);
    let g = gap(last_kind(toks.take(k)), toks[k].kind);
    let t = toks[k];
    lemma_render_prefix(toks, k);
    lemma_render_at(toks, k);
    lemma_first_char(t);
    let start = a + g.len();
    assert forall|j: int| 0 <= j < t.text.len() implies s[start + j] == t.text[j] by {
        assert(s.subrange(a, b)[g.len() + j] == (g + t.text)[g.len() + j]);
    }
    assert(s[start] == t.text[0]);
    if g.len() > 0 {
        assert(s.subrange(a, b)[0] == (g + t.text)[0]);
        assert(s[a] == ' ');
        assert(skip_blank(s, a + 1) == a + 1);
    }
    assert(skip_blank(s, a) == start);
    assert(s.subrange(start, b) =~= t.text);
    if is_word(t.kind) {
        if b < s.len() {
            lemma_render_at(toks, k + 1);
            let next = toks[k + 1];
            lemma_first_char(next);
            let h = gap(last_kind(toks.take(k + 1)), next.kind);
            assert(toks.take(k + 1).last() == t);
            let c = end_of(toks, k + 2);
            assert(s.subrange(b, c)[0] == (h + next.text)[0]);
            assert(!is_name_char(s[b]));
        } else {
        }
        assert forall|i: int| start <= i < b implies is_name_char(#[trigger] s[i]) by {
            assert(s[i] == t.text[i - start]);
        }
        lemma_word_run(s, start, b);
    } else {
        assert(b == start + 1);
    }
}

/// The lexer gives back the tokens that were written, and then the end.
proof fn lemma_lex_rendered(toks: Seq<Tok>, k: int)
    requires
        all_writable(toks),
        0 <= k <= toks.len(),
    ensures
        lex(render(toks), end_of(toks, k)).len() == toks.len() - k + 1,
        spelled(lex(render(toks), end_of(toks, k)), 0, toks.skip(k)),
        lex(render(toks), end_of(toks, k))[toks.len() - k].kind == Grammar::End,
    decreases toks.len() - k,
{
    let s = render(toks);
    lemma_render_prefix(toks, k);
    if k == toks.len() {
        assert(toks.take(k) =~= toks);
        lemma_skip_blank(s, s.len() as int);
    } else {
        lemma_scan_rendered(toks, k);
        lemma_first_char(toks[k]);
        lemma_lex_rendered(toks, k + 1);
        let first = scan(s, end_of(toks, k));
        let rest = lex(s, end_of(toks, k + 1));
        let all = lex(s, end_of(toks, k));
        assert(first.kind == toks[k].kind);
        assert(first.kind != Grammar::End);
        assert(0 <= end_of(toks, k) <= s.len());
        lemma_scan_bounds(s, end_of(toks, k));
        assert(all =~= seq![first] + rest);
        assert forall|j: int| 0 <= j < toks.skip(k).len() implies plain(#[trigger] all[0 + j])
            == toks.skip(k)[j] by {
            if j > 0 {
                assert(all[j] == rest[j - 1]);
                assert(plain(rest[0 + (j - 1)]) == toks.skip(k + 1)[j - 1]);
            }
        }
        assert(all[toks.len() - k] == rest[toks.len() - k - 1]);
    }
}

/// The tokens of the text of `toks` are `toks`, and then the end.
pub proof fn lemma_tokens_of_rendered(toks: Seq<Tok>)
    requires
        all_writable(toks),
    ensures
        tokens(render(toks)).len() == toks.len() + 1,
        spelled(tokens(render(toks)), 0, toks),
        tokens(render(toks))[toks.len() as int].kind == Grammar::End,
{
    lemma_lex_rendered(toks, 0);
    assert(toks.take(0) =~= Seq::<Tok>::empty());
    assert(toks.skip(0) =~= toks);
}

/// The kinds of the keywords and of the symbols.
pub open spec fn is_fixed(kind: Grammar) -> bool {
    is_keyword(kind) || kind == Grammar::A_ || kind == Grammar::_A || kind == Grammar::P_ || kind
        == Grammar::_P || kind == Grammar::Parallel || kind == Grammar::Wait || kind
        == Grammar::Star
}

/// The kinds with which a term can begin.
pub open spec fn begins_a_term(kind: Grammar) -> bool {
    is_word(kind) || kind == Grammar::P_
}

/// The kinds that can follow an atom.
pub open spec fn after_atom(kind: Grammar) -> bool {
    after_serial(kind) || kind == Grammar::Wait
}

/// The kinds that can follow a sequence.
pub open spec fn after_serial(kind: Grammar) -> bool {
    after_parallel(kind) || kind == Grammar::Parallel
}

/// The kinds that can follow a composition.
pub open spec fn after_parallel(kind: Grammar) -> bool {
    kind == Grammar::_A || kind == Grammar::_P || kind == Grammar::End
}

/// The parse `found` ends at `end` with a term whose processes are `ps`.
pub open spec fn reads(found: Result<(Term, int), Miss>, end: int, ps: Seq<Proc>) -> bool {
    match found {
        Ok((u, j)) => j == end && shape(u) == ps,
        Err(_) => false,
    }
}

/// The parse `found` ends at `end` with as many terms as `ts`, each with
/// the processes of its counterpart.
pub open spec fn reads_all(found: Result<(Seq<Term>, int), Miss>, end: int, ts: Seq<Term>) -> bool {
    match found {
        Ok((us, j)) => j == end && us.len() == ts.len() && forall|k: int|
            0 <= k < ts.len() ==> shape(#[trigger] us[k]) == shape(ts[k]),
        Err(_) => false,
    }
}

/// The keywords and the symbols are spelled as the lexer reads them.
proof fn lemma_fixed_writable(kind: Grammar)
    requires
        is_fixed(kind),
    ensures
        is_writable(fixed(kind)),
{
    reveal_strlit("in");
    reveal_strlit("in_");
    reveal_strlit("out");
    reveal_strlit("out_");
    reveal_strlit("open");
    reveal_strlit("open_");
    reveal_strlit("arg");
    reveal_strlit("call");
    reveal_strlit("create");
    reveal_strlit("deploy");
    reveal_strlit("func");
    reveal_strlit("return");
    reveal_strlit("string");
    reveal_strlit("[");
    reveal_strlit("]");
    reveal_strlit("(");
    reveal_strlit(")");
    reveal_strlit("|");
    reveal_strlit(".");
    reveal_strlit("*");
    let w = word(kind);
    if is_keyword(kind) {
        assert(w.len() >= 2);
        assert(w[0] == 'i' || w[0] == 'o');
        assert(w[1] == 'n' || w[1] == 'u' || w[1] == 'p');
        assert(is_wordlike(w));
        assert(kind == classify(w));
    }
}

proof fn lemma_spelled_split(lx: Seq<Lexeme>, i: int, a: Seq<Tok>, b: Seq<Tok>)
    requires
        spelled(lx, i, a + b),
    ensures
        spelled(lx, i, a),
        spelled(lx, i + a.len(), b),
{
    assert forall|k: int| 0 <= k < a.len() implies plain(#[trigger] lx[i + k]) == a[k] by {
        assert((a + b)[k] == a[k]);
    }
    assert forall|k: int| 0 <= k < b.len() implies plain(#[trigger] lx[i + a.len() + k])
        == b[k] by {
        assert((a + b)[a.len() + k] == b[k]);
        assert(plain(lx[i + (a.len() + k)]) == (a + b)[a.len() + k]);
    }
}

proof fn lemma_spelled_at(lx: Seq<Lexeme>, i: int, toks: Seq<Tok>, k: int)
    requires
        spelled(lx, i, toks),
        0 <= k < toks.len(),
    ensures
        0 <= i + k < lx.len(),
        kind_at(lx, i + k) == toks[k].kind,
        lx[i + k].kind == toks[k].kind,
        lx[i + k].text == toks[k].text,
{
    assert(plain(lx[i + k]) == toks[k]);
}

/// A term is spelled by one token at least, and its first token is a
/// word or an opening parenthesis.
proof fn lemma_first_token(t: Term, level: nat)
    ensures
        toks_of(t, level).len() > 0,
        begins_a_term(toks_of(t, level)[0].kind),
    decreases t, 1nat,
{
    match t {
        Term::Noop(n) => {
            lemma_classify_word(n);
        },
        Term::Ambient(n, b) => {
            lemma_classify_word(n);
        },
        Term::Group(b) => {},
        Term::In(n) => {},
        Term::Out(n) => {},
        Term::Open(n) => {},
        Term::In_(n) => {},
        Term::Out_(n) => {},
        Term::Open_(n) => {},
        Term::Parallel(ts) => {
            if ts.len() > 0 {
                lemma_first_joined(ts, Grammar::Parallel);
            }
        },
        Term::Serial(ts) => {
            if ts.len() > 0 {
                lemma_first_joined(ts, Grammar::Wait);
            }
        },
    }
}

proof fn lemma_first_joined(ts: Seq<Term>, by: Grammar)
    requires
        ts.len() > 0,
    ensures
        joined(ts, by).len() > 0,
        begins_a_term(joined(ts, by)[0].kind),
    decreases ts, 0nat,
{
    lemma_first_token(ts[0], level_under(by));
}

proof fn lemma_all_writable_add(a: Seq<Tok>, b: Seq<Tok>)
    requires
        all_writable(a),
        all_writable(b),
    ensures
        all_writable(a + b),
{
    assert forall|k: int| 0 <= k < (a + b).len() implies is_writable(#[trigger] (a + b)[k]) by {
        if k < a.len() {
            assert((a + b)[k] == a[k]);
        } else {
            assert((a + b)[k] == b[k - a.len()]);
        }
    }
}

proof fn lemma_legal_name_writable(n: Seq<char>)
    requires
        is_legal_name(n),
    ensures
        is_writable(named(n)),
{
}

proof fn lemma_action_writable(kind: Grammar, n: Seq<char>, alone: bool)
    requires
        is_keyword(kind),
        is_legal_name(n) || (alone && n == wildcard()),
    ensures
        all_writable(action_toks(kind, n, alone)),
{
    lemma_fixed_writable(kind);
    if !(alone && n == wildcard()) {
        lemma_legal_name_writable(n);
    }
}

proof fn lemma_wrapped_writable(toks: Seq<Tok>)
    requires
        all_writable(toks),
    ensures
        all_writable(wrapped(toks)),
{
    lemma_fixed_writable(Grammar::P_);
    lemma_fixed_writable(Grammar::_P);
    lemma_all_writable_add(seq![fixed(Grammar::P_)], toks);
    lemma_all_writable_add(seq![fixed(Grammar::P_)] + toks, seq![fixed(Grammar::_P)]);
}

/// The tokens of a well-formed term are tokens that the lexer gives back.
proof fn lemma_term_writable(t: Term, level: nat)
    requires
        well_formed(t),
    ensures
        all_writable(toks_of(t, level)),
        all_writable(inner_toks(t)),
    decreases t, 1nat,
{
    match t {
        Term::Noop(n) => {
            lemma_fixed_writable(Grammar::A_);
            lemma_fixed_writable(Grammar::_A);
        },
        Term::Ambient(n, b) => {
            lemma_fixed_writable(Grammar::A_);
            lemma_fixed_writable(Grammar::_A);
            lemma_term_writable(*b, 0);
            lemma_all_writable_add(seq![named(n), fixed(Grammar::A_)], inner_toks(*b));
            lemma_all_writable_add(
                seq![named(n), fixed(Grammar::A_)] + inner_toks(*b),
                seq![fixed(Grammar::_A)],
            );
        },
        Term::Group(b) => {
            lemma_term_writable(*b, 0);
            lemma_wrapped_writable(inner_toks(*b));
        },
        Term::In(n) => lemma_action_writable(Grammar::In, n, false),
        Term::Out(n) => lemma_action_writable(Grammar::Out, n, false),
        Term::Open(n) => lemma_action_writable(Grammar::Open, n, false),
        Term::In_(n) => lemma_action_writable(Grammar::CoIn, n, true),
        Term::Out_(n) => lemma_action_writable(Grammar::CoOut, n, true),
        Term::Open_(n) => lemma_action_writable(Grammar::CoOpen, n, true),
        Term::Parallel(ts) => {
            lemma_wrapped_writable(Seq::empty());
            if ts.len() > 0 {
                lemma_joined_writable(ts, Grammar::Parallel);
                lemma_wrapped_writable(joined(ts, Grammar::Parallel));
            }
        },
        Term::Serial(ts) => {
            lemma_wrapped_writable(Seq::empty());
            if ts.len() > 0 {
                lemma_joined_writable(ts, Grammar::Wait);
                lemma_wrapped_writable(joined(ts, Grammar::Wait));
            }
        },
    }
}

proof fn lemma_joined_writable(ts: Seq<Term>, by: Grammar)
    requires
        forall|k: int| 0 <= k < ts.len() ==> well_formed(#[trigger] ts[k]),
        by == Grammar::Parallel || by == Grammar::Wait,
    ensures
        all_writable(joined(ts, by)),
    decreases ts, 0nat,
{
    if ts.len() >= 1 {
        lemma_term_writable(ts[0], level_under(by));
        if ts.len() > 1 {
            lemma_fixed_writable(by);
            assert forall|k: int| 0 <= k < ts.drop_first().len() implies well_formed(
                #[trigger] ts.drop_first()[k],
            ) by {
                assert(ts.drop_first()[k] == ts[k + 1]);
            }
            lemma_joined_writable(ts.drop_first(), by);
            lemma_all_writable_add(toks_of(ts[0], level_under(by)), seq![fixed(by)]);
            lemma_all_writable_add(
                toks_of(ts[0], level_under(by)) + seq![fixed(by)],
                joined(ts.drop_first(), by),
            );
        }
    }
}

proof fn lemma_chain_pointwise(us: Seq<Term>, ts: Seq<Term>)
    requires
        us.len() == ts.len(),
        forall|k: int| 0 <= k < ts.len() ==> shape(#[trigger] us[k]) == shape(ts[k]),
    ensures
        chain(us) == chain(ts),
    decreases ts.len(),
{
    if ts.len() >= 1 {
        assert(shape(us[0]) == shape(ts[0]));
        if ts.len() >= 2 {
            assert forall|k: int| 0 <= k < ts.drop_first().len() implies shape(
                #[trigger] us.drop_first()[k],
            ) == shape(ts.drop_first()[k]) by {
                assert(shape(us[k + 1]) == shape(ts[k + 1]));
            }
            lemma_chain_pointwise(us.drop_first(), ts.drop_first());
        }
    }
}

proof fn lemma_shapes_pointwise(us: Seq<Term>, ts: Seq<Term>)
    requires
        us.len() == ts.len(),
        forall|k: int| 0 <= k < ts.len() ==> shape(#[trigger] us[k]) == shape(ts[k]),
    ensures
        shapes(us) == shapes(ts),
    decreases ts.len(),
{
    if ts.len() >= 1 {
        assert(shape(us[us.len() - 1]) == shape(ts[ts.len() - 1]));
        assert forall|k: int| 0 <= k < ts.drop_last().len() implies shape(
            #[trigger] us.drop_last()[k],
        ) == shape(ts.drop_last()[k]) by {
            assert(shape(us[k]) == shape(ts[k]));
        }
        lemma_shapes_pointwise(us.drop_last(), ts.drop_last());
    }
}

proof fn lemma_nothing(b: Term)
    requires
        is_nothing(b),
    ensures
        shape(b) == Seq::<Proc>::empty(),
        shapes(Seq::<Term>::empty()) == Seq::<Proc>::empty(),
{
    match b {
        Term::Parallel(ts) => {
            assert(shapes(ts) =~= Seq::<Proc>::empty());
        },
        Term::Serial(ts) => {
            assert(chain(ts) =~= Seq::<Proc>::empty());
        },
        _ => {},
    }
}

/// An atom that is not followed by a dot is a sequence by itself.
proof fn lemma_atom_alone(lx: Seq<Lexeme>, i: int, end: int, ps: Seq<Proc>)
    requires
        reads(parse_atom(lx, i), end, ps),
        kind_at(lx, end) != Grammar::Wait,
    ensures
        reads(parse_serial(lx, i), end, ps),
{
}

/// A sequence that is not followed by a bar is a composition by itself.
proof fn lemma_serial_alone(lx: Seq<Lexeme>, i: int, end: int, ps: Seq<Proc>)
    requires
        reads(parse_serial(lx, i), end, ps),
        kind_at(lx, end) != Grammar::Parallel,
    ensures
        reads(parse_parallel(lx, i), end, ps),
{
}

/// What stands between brackets or parentheses is read as written.
proof fn lemma_inner(lx: Seq<Lexeme>, i: int, b: Term)
    requires
        well_formed(b),
        !is_nothing(b),
        spelled(lx, i, inner_toks(b)),
        after_parallel(kind_at(lx, i + inner_toks(b).len())),
    ensures
        reads(parse_parallel(lx, i), i + inner_toks(b).len(), shape(b)),
        inner_toks(b).len() > 0,
        begins_a_term(kind_at(lx, i)),
    decreases b, 3nat,
{
    lemma_first_token(b, 0);
    lemma_spelled_at(lx, i, inner_toks(b), 0);
    lemma_parallel(lx, i, b);
}

/// The parser reads an atom as it was written.
proof fn lemma_atom(lx: Seq<Lexeme>, i: int, t: Term)
    requires
        well_formed(t),
        spelled(lx, i, toks_of(t, 2)),
        after_atom(kind_at(lx, i + toks_of(t, 2).len())),
    ensures
        reads(parse_atom(lx, i), i + toks_of(t, 2).len(), shape(t)),
    decreases t, 0nat,
{
    let toks = toks_of(t, 2);
    let n = toks.len() as int;
    lemma_first_token(t, 2);
    lemma_spelled_at(lx, i, toks, 0);
    match t {
        Term::Noop(name) => {
            lemma_spelled_at(lx, i, toks, 1);
            lemma_spelled_at(lx, i, toks, 2);
        },
        Term::Ambient(name, b) => {
            let pre = seq![named(name), fixed(Grammar::A_)];
            let mid = inner_toks(*b);
            let post = seq![fixed(Grammar::_A)];
            lemma_spelled_at(lx, i, toks, 1);
            lemma_spelled_at(lx, i, toks, n - 1);
            lemma_spelled_split(lx, i, pre + mid, post);
            lemma_spelled_split(lx, i, pre, mid);
            if is_nothing(*b) {
                lemma_nothing(*b);
            } else {
                lemma_inner(lx, i + 2, *b);
            }
        },
        Term::Group(b) => {
            let pre = seq![fixed(Grammar::P_)];
            let mid = inner_toks(*b);
            let post = seq![fixed(Grammar::_P)];
            lemma_spelled_at(lx, i, toks, n - 1);
            lemma_spelled_split(lx, i, pre + mid, post);
            lemma_spelled_split(lx, i, pre, mid);
            lemma_nothing(Term::Parallel(Seq::empty()));
            if is_nothing(*b) {
                lemma_nothing(*b);
            } else {
                lemma_inner(lx, i + 1, *b);
            }
        },
        Term::In(name) => {
            lemma_spelled_at(lx, i, toks, 1);
        },
        Term::Out(name) => {
            lemma_spelled_at(lx, i, toks, 1);
        },
        Term::Open(name) => {
            lemma_spelled_at(lx, i, toks, 1);
        },
        Term::In_(name) => {
            if name != wildcard() {
                lemma_spelled_at(lx, i, toks, 1);
            }
        },
        Term::Out_(name) => {
            if name != wildcard() {
                lemma_spelled_at(lx, i, toks, 1);
            }
        },
        Term::Open_(name) => {
            if name != wildcard() {
                lemma_spelled_at(lx, i, toks, 1);
            }
        },
        Term::Parallel(ts) => {
            lemma_spelled_at(lx, i, toks, n - 1);
            lemma_nothing(Term::Parallel(Seq::empty()));
            if ts.len() == 0 {
                lemma_nothing(t);
            } else {
                let mid = joined(ts, Grammar::Parallel);
                let pre = seq![fixed(Grammar::P_)];
                lemma_spelled_split(lx, i, pre + mid, seq![fixed(Grammar::_P)]);
                lemma_spelled_split(lx, i, pre, mid);
                lemma_first_joined(ts, Grammar::Parallel);
                lemma_spelled_at(lx, i + 1, mid, 0);
                lemma_parallel_list(lx, i + 1, ts);
            }
        },
        Term::Serial(ts) => {
            lemma_spelled_at(lx, i, toks, n - 1);
            lemma_nothing(Term::Parallel(Seq::empty()));
            if ts.len() == 0 {
                lemma_nothing(t);
            } else {
                let mid = joined(ts, Grammar::Wait);
                let pre = seq![fixed(Grammar::P_)];
                lemma_spelled_split(lx, i, pre + mid, seq![fixed(Grammar::_P)]);
                lemma_spelled_split(lx, i, pre, mid);
                lemma_first_joined(ts, Grammar::Wait);
                lemma_spelled_at(lx, i + 1, mid, 0);
                lemma_serial_list(lx, i + 1, ts);
                lemma_serial_alone(lx, i + 1, i + 1 + mid.len(), chain(ts));
            }
        },
    }
}

/// The parser reads a sequence as it was written.
proof fn lemma_serial(lx: Seq<Lexeme>, i: int, t: Term)
    requires
        well_formed(t),
        spelled(lx, i, toks_of(t, 1)),
        after_serial(kind_at(lx, i + toks_of(t, 1).len())),
    ensures
        reads(parse_serial(lx, i), i + toks_of(t, 1).len(), shape(t)),
    decreases t, 1nat,
{
    match t {
        Term::Serial(ts) => {
            if ts.len() > 0 {
                lemma_serial_list(lx, i, ts);
            } else {
                lemma_atom(lx, i, t);
                lemma_atom_alone(lx, i, i + toks_of(t, 1).len(), shape(t));
            }
        },
        _ => {
            assert(toks_of(t, 1) == toks_of(t, 2));
            lemma_atom(lx, i, t);
            lemma_atom_alone(lx, i, i + toks_of(t, 1).len(), shape(t));
        },
    }
}

/// The parser reads a composition as it was written.
proof fn lemma_parallel(lx: Seq<Lexeme>, i: int, t: Term)
    requires
        well_formed(t),
        spelled(lx, i, toks_of(t, 0)),
        after_parallel(kind_at(lx, i + toks_of(t, 0).len())),
    ensures
        reads(parse_parallel(lx, i), i + toks_of(t, 0).len(), shape(t)),
    decreases t, 2nat,
{
    match t {
        Term::Parallel(ts) => {
            if ts.len() > 0 {
                lemma_parallel_list(lx, i, ts);
            } else {
                lemma_serial(lx, i, t);
                lemma_serial_alone(lx, i, i + toks_of(t, 0).len(), shape(t));
            }
        },
        _ => {
            assert(toks_of(t, 0) == toks_of(t, 1));
            lemma_serial(lx, i, t);
            lemma_serial_alone(lx, i, i + toks_of(t, 0).len(), shape(t));
        },
    }
}

proof fn lemma_serial_list(lx: Seq<Lexeme>, i: int, ts: Seq<Term>)
    requires
        ts.len() > 0,
        forall|k: int| 0 <= k < ts.len() ==> well_formed(#[trigger] ts[k]),
        spelled(lx, i, joined(ts, Grammar::Wait)),
        after_serial(kind_at(lx, i + joined(ts, Grammar::Wait).len())),
    ensures
        reads(parse_serial(lx, i), i + joined(ts, Grammar::Wait).len(), chain(ts)),
    decreases ts, 1nat,
{
    lemma_atoms(lx, i, ts);
    match parse_atoms(lx, i) {
        Ok((us, j)) => {
            lemma_chain_pointwise(us, ts);
            if us.len() == 1 {
                assert(shape(us[0]) == shape(ts[0]));
            }
        },
        Err(_) => {},
    }
}

proof fn lemma_parallel_list(lx: Seq<Lexeme>, i: int, ts: Seq<Term>)
    requires
        ts.len() > 0,
        forall|k: int| 0 <= k < ts.len() ==> well_formed(#[trigger] ts[k]),
        spelled(lx, i, joined(ts, Grammar::Parallel)),
        after_parallel(kind_at(lx, i + joined(ts, Grammar::Parallel).len())),
    ensures
        reads(parse_parallel(lx, i), i + joined(ts, Grammar::Parallel).len(), shapes(ts)),
    decreases ts, 1nat,
{
    lemma_serials(lx, i, ts);
    match parse_serials(lx, i) {
        Ok((us, j)) => {
            lemma_shapes_pointwise(us, ts);
            if us.len() == 1 {
                assert(shape(us[0]) == shape(ts[0]));
                assert(ts.drop_last() =~= Seq::<Term>::empty());
                assert(shapes(ts.drop_last()) =~= Seq::<Proc>::empty());
                assert(shapes(ts) =~= shape(ts[0]));
            }
        },
        Err(_) => {},
    }
}

proof fn lemma_atoms(lx: Seq<Lexeme>, i: int, ts: Seq<Term>)
    requires
        ts.len() > 0,
        forall|k: int| 0 <= k < ts.len() ==> well_formed(#[trigger] ts[k]),
        spelled(lx, i, joined(ts, Grammar::Wait)),
        after_serial(kind_at(lx, i + joined(ts, Grammar::Wait).len())),
    ensures
        reads_all(parse_atoms(lx, i), i + joined(ts, Grammar::Wait).len(), ts),
    decreases ts, 0nat,
{
    let first = toks_of(ts[0], 2);
    if ts.len() == 1 {
        lemma_atom(lx, i, ts[0]);
    } else {
        let rest = ts.drop_first();
        let sep = seq![fixed(Grammar::Wait)];
        lemma_spelled_split(lx, i, first + sep, joined(rest, Grammar::Wait));
        lemma_spelled_split(lx, i, first, sep);
        lemma_spelled_at(lx, i + first.len(), sep, 0);
        lemma_atom(lx, i, ts[0]);
        assert forall|k: int| 0 <= k < rest.len() implies well_formed(#[trigger] rest[k]) by {
            assert(rest[k] == ts[k + 1]);
        }
        lemma_atoms(lx, i + first.len() + 1, rest);
        match (parse_atom(lx, i), parse_atoms(lx, i + first.len() + 1)) {
            (Ok((u, j)), Ok((others, end))) => {
                let us = seq![u] + others;
                assert forall|k: int| 0 <= k < ts.len() implies shape(#[trigger] us[k]) == shape(
                    ts[k],
                ) by {
                    if k > 0 {
                        assert(us[k] == others[k - 1]);
                        assert(shape(others[k - 1]) == shape(rest[k - 1]));
                    }
                }
            },
            _ => {},
        }
    }
}

proof fn lemma_serials(lx: Seq<Lexeme>, i: int, ts: Seq<Term>)
    requires
        ts.len() > 0,
        forall|k: int| 0 <= k < ts.len() ==> well_formed(#[trigger] ts[k]),
        spelled(lx, i, joined(ts, Grammar::Parallel)),
        after_parallel(kind_at(lx, i + joined(ts, Grammar::Parallel).len())),
    ensures
        reads_all(parse_serials(lx, i), i + joined(ts, Grammar::Parallel).len(), ts),
    decreases ts, 0nat,
{
    let first = toks_of(ts[0], 1);
    if ts.len() == 1 {
        lemma_serial(lx, i, ts[0]);
    } else {
        let rest = ts.drop_first();
        let sep = seq![fixed(Grammar::Parallel)];
        lemma_spelled_split(lx, i, first + sep, joined(rest, Grammar::Parallel));
        lemma_spelled_split(lx, i, first, sep);
        lemma_spelled_at(lx, i + first.len(), sep, 0);
        lemma_serial(lx, i, ts[0]);
        assert forall|k: int| 0 <= k < rest.len() implies well_formed(#[trigger] rest[k]) by {
            assert(rest[k] == ts[k + 1]);
        }
        lemma_serials(lx, i + first.len() + 1, rest);
        match (parse_serial(lx, i), parse_serials(lx, i + first.len() + 1)) {
            (Ok((u, j)), Ok((others, end))) => {
                let us = seq![u] + others;
                assert forall|k: int| 0 <= k < ts.len() implies shape(#[trigger] us[k]) == shape(
                    ts[k],
                ) by {
                    if k > 0 {
                        assert(us[k] == others[k - 1]);
                        assert(shape(others[k - 1]) == shape(rest[k - 1]));
                    }
                }
            },
            _ => {},
        }
    }
}

/// What the printer writes, the parser reads: the text of a well-formed
/// term is a program, and the term of that program has the processes of
/// the term that was written, in the same order. The two are congruent.
pub proof fn lemma_parse_show(t: Term)
    requires
        well_formed(t),
    ensures
        parse_text(show(t)) is Ok,
        shape(parse_text(show(t))->Ok_0) == shape(t),
        congruent_terms(parse_text(show(t))->Ok_0, t),
{
    let toks = toks_of(t, 0);
    let lx = tokens(show(t));
    lemma_term_writable(t, 0);
    lemma_tokens_of_rendered(toks);
    lemma_parallel(lx, 0, t);
    lemma_same_shape_congruent(parse_text(show(t))->Ok_0, t);
}

} // verus!
