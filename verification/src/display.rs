//! The printer: from a term to its text.
//!
//! A term is written as the tokens that spell it, with parentheses where
//! the grammar needs them and nowhere else: around a composition that
//! stands inside a composition or a sequence, and around a sequence that
//! stands inside a sequence. An empty composition or sequence is written
//! `()`, and left out altogether where it is the body of an ambient. A
//! co-capability that admits everyone is written without authorization.
//!
//! Tokens stand side by side, but for one blank between two words and on
//! either side of a bar.

use vstd::prelude::*;
use vstd::string::StringExecFns;
use crate::ast::{Exec, Term, terms_of};
use crate::lexer::{
    Grammar, chars_of, classify, classify_word, is_name, is_name_char, is_word, is_wordlike,
    lemma_classify_word, name_char, named_kind,
};
use crate::process::{compose, get_children, raise, shape};
use crate::redex::{is_wildcard, wildcard};

verus! {

/// A token to be written: its kind and its characters.
pub struct Tok {
    pub kind: Grammar,
    pub text: Seq<char>,
}

/// The characters of a keyword or of a symbol.
pub open spec fn word(kind: Grammar) -> Seq<char> {
    match kind {
        Grammar::In => "in"@,
        Grammar::CoIn => "in_"@,
        Grammar::Out => "out"@,
        Grammar::CoOut => "out_"@,
        Grammar::Open => "open"@,
        Grammar::CoOpen => "open_"@,
        Grammar::A_ => "["@,
        Grammar::_A => "]"@,
        Grammar::P_ => "("@,
        Grammar::_P => ")"@,
        Grammar::Parallel => "|"@,
        Grammar::Wait => "."@,
        Grammar::Star => "*"@,
        _ => Seq::empty(),
    }
}

/// The token of a keyword or of a symbol.
pub open spec fn fixed(kind: Grammar) -> Tok {
    Tok { kind, text: word(kind) }
}

/// The token of a name.
pub open spec fn named(n: Seq<char>) -> Tok {
    Tok { kind: classify(n), text: n }
}

/// The tokens of a capability or co-capability `kind` that carries `n`.
pub open spec fn action_toks(kind: Grammar, n: Seq<char>, may_stand_alone: bool) -> Seq<Tok> {
    if may_stand_alone && n == wildcard() {
        seq![fixed(kind)]
    } else {
        seq![fixed(kind), named(n)]
    }
}

/// Whether `t` is a composition or a sequence of nothing.
pub open spec fn is_nothing(t: Term) -> bool {
    match t {
        Term::Parallel(ts) => ts.len() == 0,
        Term::Serial(ts) => ts.len() == 0,
        _ => false,
    }
}

/// The tokens of `t` between brackets or parentheses.
pub open spec fn inner_toks(t: Term) -> Seq<Tok>
    decreases t, 1nat,
{
    if is_nothing(t) {
        Seq::empty()
    } else {
        toks_of(t, 0)
    }
}

/// `toks` in parentheses.
pub open spec fn wrapped(toks: Seq<Tok>) -> Seq<Tok> {
    seq![fixed(Grammar::P_)] + toks + seq![fixed(Grammar::_P)]
}

/// The tokens that spell `t` where the grammar expects a composition
/// (`level` 0), a sequence (1) or an atom (2).
pub open spec fn toks_of(t: Term, level: nat) -> Seq<Tok>
    decreases t, 0nat,
{
    match t {
        Term::Noop(n) => seq![named(n), fixed(Grammar::A_), fixed(Grammar::_A)],
        Term::Ambient(n, b) => seq![named(n), fixed(Grammar::A_)] + inner_toks(*b) + seq![
            fixed(Grammar::_A),
        ],
        Term::Group(b) => wrapped(inner_toks(*b)),
        Term::In(n) => action_toks(Grammar::In, n, false),
        Term::Out(n) => action_toks(Grammar::Out, n, false),
        Term::Open(n) => action_toks(Grammar::Open, n, false),
        Term::In_(n) => action_toks(Grammar::CoIn, n, true),
        Term::Out_(n) => action_toks(Grammar::CoOut, n, true),
        Term::Open_(n) => action_toks(Grammar::CoOpen, n, true),
        Term::Parallel(ts) => if ts.len() == 0 {
            wrapped(Seq::empty())
        } else if level == 0 {
            joined(ts, Grammar::Parallel)
        } else {
            wrapped(joined(ts, Grammar::Parallel))
        },
        Term::Serial(ts) => if ts.len() == 0 {
            wrapped(Seq::empty())
        } else if level <= 1 {
            joined(ts, Grammar::Wait)
        } else {
            wrapped(joined(ts, Grammar::Wait))
        },
    }
}

/// The level at which the elements stand that `by` separates.
pub open spec fn level_under(by: Grammar) -> nat {
    if by == Grammar::Parallel {
        1
    } else {
        2
    }
}

/// The tokens of the elements `ts`, separated by the token `by`.
pub open spec fn joined(ts: Seq<Term>, by: Grammar) -> Seq<Tok>
    decreases ts, 0nat,
{
    if ts.len() == 0 {
        Seq::empty()
    } else if ts.len() == 1 {
        toks_of(ts[0], level_under(by))
    } else {
        toks_of(ts[0], level_under(by)) + seq![fixed(by)] + joined(ts.drop_first(), by)
    }
}

/// The blank, if any, between a token of kind `before` and one of kind
/// `next`.
pub open spec fn gap(before: Option<Grammar>, next: Grammar) -> Seq<char> {
    match before {
        None => Seq::empty(),
        Some(p) => if p == Grammar::Parallel || next == Grammar::Parallel || (is_word(p)
            && is_word(next)) {
            seq![' ']
        } else {
            Seq::empty()
        },
    }
}

/// The kind of the last token of `toks`.
pub open spec fn last_kind(toks: Seq<Tok>) -> Option<Grammar> {
    if toks.len() == 0 {
        None
    } else {
        Some(toks.last().kind)
    }
}

/// The text of the tokens `toks`.
pub open spec fn render(toks: Seq<Tok>) -> Seq<char>
    decreases toks.len(),
{
    if toks.len() == 0 {
        Seq::empty()
    } else {
        render(toks.drop_last()) + gap(last_kind(toks.drop_last()), toks.last().kind)
            + toks.last().text
    }
}

/// The text of the term `t`.
pub open spec fn show(t: Term) -> Seq<char> {
    render(toks_of(t, 0))
}

/// A name that the grammar reads as a name: a word that is no keyword.
pub open spec fn is_legal_name(n: Seq<char>) -> bool {
    is_wordlike(n) && is_name(classify(n))
}

/// Every name in `t` is a legal name, and every authorization a legal name
/// or the wildcard.
pub open spec fn well_formed(t: Term) -> bool
    decreases t,
{
    match t {
        Term::Noop(n) => is_legal_name(n),
        Term::Ambient(n, b) => is_legal_name(n) && well_formed(*b),
        Term::Group(b) => well_formed(*b),
        Term::In(n) => is_legal_name(n),
        Term::Out(n) => is_legal_name(n),
        Term::Open(n) => is_legal_name(n),
        Term::In_(n) => n == wildcard() || is_legal_name(n),
        Term::Out_(n) => n == wildcard() || is_legal_name(n),
        Term::Open_(n) => n == wildcard() || is_legal_name(n),
        Term::Parallel(ts) => forall|k: int| 0 <= k < ts.len() ==> well_formed(#[trigger] ts[k]),
        Term::Serial(ts) => forall|k: int| 0 <= k < ts.len() ==> well_formed(#[trigger] ts[k]),
    }
}

/// Two kinds that call for the same gaps around them.
spec fn same_gaps(a: Grammar, b: Grammar) -> bool {
    is_word(a) == is_word(b) && (a == Grammar::Parallel) == (b == Grammar::Parallel)
}

/// A text in the making: the characters so far, and a kind that calls for
/// the same gaps as the last token among them.
struct Page {
    out: String,
    last: Option<Grammar>,
}

impl Page {
    spec fn holds(&self, toks: Seq<Tok>) -> bool {
        &&& self.out@ == render(toks)
        &&& self.last is None <==> toks.len() == 0
        &&& self.last matches Some(k) ==> same_gaps(k, toks.last().kind)
    }

    fn put(&mut self, like: Grammar, text: &str, Ghost(kind): Ghost<Grammar>, Ghost(done): Ghost<
        Seq<Tok>,
    >)
        requires
            old(self).holds(done),
            same_gaps(like, kind),
        ensures
            final(self).holds(done.push(Tok { kind, text: text@ })),
    {
        let blank = match self.last {
            None => false,
            Some(p) => p == Grammar::Parallel || like == Grammar::Parallel || (wordy(p) && wordy(
                like,
            )),
        };
        if blank {
            proof {
                reveal_strlit(" ");
            }
            self.out.append(" ");
            assert(" "@ =~= seq![' ']);
        }
        self.out.append(text);
        self.last = Some(like);
        proof {
            let toks = done.push(Tok { kind, text: text@ });
            assert(toks.drop_last() =~= done);
            assert(self.out@ =~= render(done) + gap(last_kind(done), kind) + text@);
        }
    }

    fn put_fixed(&mut self, kind: Grammar, Ghost(done): Ghost<Seq<Tok>>)
        requires
            old(self).holds(done),
        ensures
            final(self).holds(done.push(fixed(kind))),
    {
        self.put(kind, word_of(kind), Ghost(kind), Ghost(done));
    }

    fn put_name(&mut self, n: &String, Ghost(done): Ghost<Seq<Tok>>)
        requires
            old(self).holds(done),
        ensures
            final(self).holds(done.push(named(n@))),
    {
        proof {
            lemma_classify_word(n@);
        }
        self.put(Grammar::Name, n.as_str(), Ghost(classify(n@)), Ghost(done));
    }

    fn put_action(&mut self, kind: Grammar, n: &String, alone: bool, Ghost(done): Ghost<Seq<Tok>>)
        requires
            old(self).holds(done),
        ensures
            final(self).holds(done + action_toks(kind, n@, alone)),
    {
        self.put_fixed(kind, Ghost(done));
        if alone && is_wildcard(n) {
            assert(done.push(fixed(kind)) =~= done + action_toks(kind, n@, alone));
        } else {
            self.put_name(n, Ghost(done.push(fixed(kind))));
            assert(done.push(fixed(kind)).push(named(n@)) =~= done + action_toks(kind, n@, alone));
        }
    }

    fn put_inner(&mut self, t: &Exec, Ghost(done): Ghost<Seq<Tok>>)
        requires
            old(self).holds(done),
        ensures
            final(self).holds(done + inner_toks(t@)),
        decreases t, 3nat,
    {
        let nothing = match t {
            Exec::Parallel(v) => {
                assert(terms_of(v@).len() == v.len());
                v.len() == 0
            },
            Exec::Serial(v) => {
                assert(terms_of(v@).len() == v.len());
                v.len() == 0
            },
            _ => false,
        };
        assert(nothing == is_nothing(t@));
        if nothing {
            assert(done + inner_toks(t@) =~= done);
        } else {
            self.put_term(t, 0, Ghost(done));
        }
    }

    fn put_wrapped(&mut self, v: &Vec<Exec>, by: Grammar, bare: bool, Ghost(done): Ghost<Seq<Tok>>)
        requires
            old(self).holds(done),
            by == Grammar::Parallel || by == Grammar::Wait,
        ensures
            final(self).holds(
                done + if v.len() == 0 {
                    wrapped(Seq::empty())
                } else if bare {
                    joined(terms_of(v@), by)
                } else {
                    wrapped(joined(terms_of(v@), by))
                },
            ),
        decreases v, 1nat,
    {
        if v.len() > 0 && bare {
            self.put_joined(v, by, Ghost(done));
        } else {
            self.put_fixed(Grammar::P_, Ghost(done));
            let ghost opened = done.push(fixed(Grammar::P_));
            let ghost inside = if v.len() == 0 {
                Seq::<Tok>::empty()
            } else {
                joined(terms_of(v@), by)
            };
            if v.len() > 0 {
                self.put_joined(v, by, Ghost(opened));
            } else {
                assert(opened + inside =~= opened);
            }
            self.put_fixed(Grammar::_P, Ghost(opened + inside));
            assert((opened + inside).push(fixed(Grammar::_P)) =~= done + wrapped(inside));
        }
    }

    fn put_joined(&mut self, v: &Vec<Exec>, by: Grammar, Ghost(done): Ghost<Seq<Tok>>)
        requires
            old(self).holds(done),
            v.len() > 0,
            by == Grammar::Parallel || by == Grammar::Wait,
        ensures
            final(self).holds(done + joined(terms_of(v@), by)),
        decreases v, 0nat,
    {
        let ghost ts = terms_of(v@);
        let level: u8 = if by == Grammar::Parallel {
            1
        } else {
            2
        };
        let ghost mut written: Seq<Tok> = Seq::empty();
        let mut k: usize = 0;
        assert(ts.skip(0) =~= ts);
        assert(done + written =~= done);
        while k < v.len()
            invariant
                k <= v.len(),
                v.len() > 0,
                ts == terms_of(v@),
                level == level_under(by),
                by == Grammar::Parallel || by == Grammar::Wait,
                self.holds(done + written),
                k < v.len() ==> joined(ts, by) == written + if k == 0 {
                    joined(ts.skip(k as int), by)
                } else {
                    seq![fixed(by)] + joined(ts.skip(k as int), by)
                },
                k == v.len() ==> joined(ts, by) == written,
            decreases v.len() - k,
        {
            if k > 0 {
                self.put_fixed(by, Ghost(done + written));
                proof {
                    assert((done + written).push(fixed(by)) =~= done + (written + seq![fixed(by)]));
                    written = written + seq![fixed(by)];
                }
            }
            self.put_term(&v[k], level, Ghost(done + written));
            proof {
                let here = toks_of(ts[k as int], level_under(by));
                let tail = ts.skip(k as int);
                assert(tail[0] == ts[k as int]);
                assert(tail.drop_first() =~= ts.skip(k + 1));
                assert((done + written) + here =~= done + (written + here));
                written = written + here;
                if k + 1 < v.len() {
                    assert(joined(tail, by) == here + seq![fixed(by)] + joined(ts.skip(k + 1), by));
                    assert(joined(ts, by) =~= written + (seq![fixed(by)] + joined(
                        ts.skip(k + 1),
                        by,
                    )));
                } else {
                    assert(joined(tail, by) == here);
                    assert(joined(ts, by) =~= written);
                }
            }
            k += 1;
        }
    }

    fn put_term(&mut self, t: &Exec, level: u8, Ghost(done): Ghost<Seq<Tok>>)
        requires
            old(self).holds(done),
        ensures
            final(self).holds(done + toks_of(t@, level as nat)),
        decreases t, 2nat,
    {
        match t {
            Exec::Noop(n) => {
                self.put_name(n, Ghost(done));
                self.put_fixed(Grammar::A_, Ghost(done.push(named(n@))));
                self.put_fixed(Grammar::_A, Ghost(done.push(named(n@)).push(fixed(Grammar::A_))));
                assert(toks_of(t@, level as nat) == seq![
                    named(n@),
                    fixed(Grammar::A_),
                    fixed(Grammar::_A),
                ]);
                assert(done.push(named(n@)).push(fixed(Grammar::A_)).push(fixed(Grammar::_A))
                    =~= done + toks_of(t@, level as nat));
            },
            Exec::Ambient(n, b) => {
                self.put_name(n, Ghost(done));
                self.put_fixed(Grammar::A_, Ghost(done.push(named(n@))));
                let ghost opened = done.push(named(n@)).push(fixed(Grammar::A_));
                self.put_inner(b, Ghost(opened));
                self.put_fixed(Grammar::_A, Ghost(opened + inner_toks(b@)));
                assert((opened + inner_toks(b@)).push(fixed(Grammar::_A)) =~= done + toks_of(
                    t@,
                    level as nat,
                ));
            },
            Exec::Group(b) => {
                self.put_fixed(Grammar::P_, Ghost(done));
                let ghost opened = done.push(fixed(Grammar::P_));
                self.put_inner(b, Ghost(opened));
                self.put_fixed(Grammar::_P, Ghost(opened + inner_toks(b@)));
                assert((opened + inner_toks(b@)).push(fixed(Grammar::_P)) =~= done + toks_of(
                    t@,
                    level as nat,
                ));
            },
            Exec::In(n) => {
                assert(toks_of(t@, level as nat) == action_toks(Grammar::In, n@, false));
                self.put_action(Grammar::In, n, false, Ghost(done))
            },
            Exec::Out(n) => {
                assert(toks_of(t@, level as nat) == action_toks(Grammar::Out, n@, false));
                self.put_action(Grammar::Out, n, false, Ghost(done))
            },
            Exec::Open(n) => {
                assert(toks_of(t@, level as nat) == action_toks(Grammar::Open, n@, false));
                self.put_action(Grammar::Open, n, false, Ghost(done))
            },
            Exec::In_(n) => {
                assert(toks_of(t@, level as nat) == action_toks(Grammar::CoIn, n@, true));
                self.put_action(Grammar::CoIn, n, true, Ghost(done))
            },
            Exec::Out_(n) => {
                assert(toks_of(t@, level as nat) == action_toks(Grammar::CoOut, n@, true));
                self.put_action(Grammar::CoOut, n, true, Ghost(done))
            },
            Exec::Open_(n) => {
                assert(toks_of(t@, level as nat) == action_toks(Grammar::CoOpen, n@, true));
                self.put_action(Grammar::CoOpen, n, true, Ghost(done))
            },
            Exec::Parallel(v) => {
                assert(terms_of(v@).len() == v.len());
                self.put_wrapped(v, Grammar::Parallel, level == 0, Ghost(done))
            },
            Exec::Serial(v) => {
                assert(terms_of(v@).len() == v.len());
                self.put_wrapped(v, Grammar::Wait, level <= 1, Ghost(done))
            },
        }
    }
}

fn wordy(kind: Grammar) -> (r: bool)
    ensures
        r == is_word(kind),
{
    kind == Grammar::In || kind == Grammar::CoIn || kind == Grammar::Out || kind == Grammar::CoOut
        || kind == Grammar::Open || kind == Grammar::CoOpen || kind == Grammar::Name || kind
        == Grammar::Arg || kind == Grammar::Call || kind == Grammar::Create || kind
        == Grammar::Deploy || kind == Grammar::Func || kind == Grammar::Return || kind
        == Grammar::Str
}

fn word_of(kind: Grammar) -> (r: &'static str)
    ensures
        r@ == word(kind),
{
    match kind {
        Grammar::In => "in",
        Grammar::CoIn => "in_",
        Grammar::Out => "out",
        Grammar::CoOut => "out_",
        Grammar::Open => "open",
        Grammar::CoOpen => "open_",
        Grammar::A_ => "[",
        Grammar::_A => "]",
        Grammar::P_ => "(",
        Grammar::_P => ")",
        Grammar::Parallel => "|",
        Grammar::Wait => ".",
        Grammar::Star => "*",
        _ => {
            proof {
                reveal_strlit("");
            }
            let r = "";
            assert(r@ =~= Seq::<char>::empty());
            r
        },
    }
}

/// Whether `n` is a name that the grammar reads as a name.
pub fn is_legal(n: &String) -> (r: bool)
    ensures
        r == is_legal_name(n@),
{
    let chars = chars_of(n.as_str());
    if chars.len() == 0 {
        return false;
    }
    let mut i: usize = 0;
    while i < chars.len()
        invariant
            i <= chars.len(),
            chars@ == n@,
            forall|j: int| 0 <= j < i ==> is_name_char(#[trigger] n@[j]),
        decreases chars.len() - i,
    {
        if !name_char(chars[i]) {
            return false;
        }
        i += 1;
    }
    assert(chars@.subrange(0, chars.len() as int) =~= n@);
    named_kind(classify_word(&chars, 0, chars.len()))
}

fn is_authorization(n: &String) -> (r: bool)
    ensures
        r == (n@ == wildcard() || is_legal_name(n@)),
{
    is_wildcard(n) || is_legal(n)
}

/// Whether every name in `ast` is a name that the grammar reads as one,
/// and every authorization such a name or the wildcard.
pub fn is_well_formed(ast: &Exec) -> (r: bool)
    ensures
        r == well_formed(ast@),
    decreases ast,
{
    match ast {
        Exec::Noop(n) => is_legal(n),
        Exec::Ambient(n, b) => is_legal(n) && is_well_formed(b),
        Exec::Group(b) => is_well_formed(b),
        Exec::In(n) => is_legal(n),
        Exec::Out(n) => is_legal(n),
        Exec::Open(n) => is_legal(n),
        Exec::In_(n) => is_authorization(n),
        Exec::Out_(n) => is_authorization(n),
        Exec::Open_(n) => is_authorization(n),
        Exec::Parallel(v) => {
            let r = all_well_formed(v);
            assert(ast@->Parallel_0 == terms_of(v@));
            r
        },
        Exec::Serial(v) => {
            let r = all_well_formed(v);
            assert(ast@->Serial_0 == terms_of(v@));
            r
        },
    }
}

fn all_well_formed(v: &Vec<Exec>) -> (r: bool)
    ensures
        r == forall|k: int| 0 <= k < v.len() ==> well_formed(#[trigger] terms_of(v@)[k]),
    decreases v,
{
    let mut i: usize = 0;
    while i < v.len()
        invariant
            i <= v.len(),
            forall|k: int| 0 <= k < i ==> well_formed(#[trigger] terms_of(v@)[k]),
        decreases v.len() - i,
    {
        if !is_well_formed(&v[i]) {
            assert(!well_formed(terms_of(v@)[i as int]));
            return false;
        }
        i += 1;
    }
    true
}

/// The text of `ast`, as the grammar reads it.
pub fn to_display(ast: &Exec) -> (r: String)
    ensures
        r@ == show(ast@),
{
    let mut page = Page { out: String::new(), last: None };
    page.put_term(ast, 0, Ghost(Seq::empty()));
    assert(Seq::<Tok>::empty() + toks_of(ast@, 0) =~= toks_of(ast@, 0));
    page.out
}

/// The text of `ast` without the grouping that changes nothing: the text
/// of the term that [`compose`] writes for the processes of `ast`. Terms
/// with the same processes in the same order have the same text.
pub fn serialize(ast: &Exec) -> (r: String)
    ensures
        r@ == show(compose(shape(ast@))),
{
    let plain = raise(&get_children(ast));
    to_display(&plain)
}

} // verus!
