//! The grammar: from tokens to a term.
//!
//! ```text
//! program  := parallel
//! parallel := serial ( '|' serial )*
//! serial   := atom ( '.' atom )*
//! atom     := NAME '[' ']' | NAME '[' parallel ']' | NAME
//!           | 'in' NAME | 'out' NAME | 'open' NAME
//!           | 'in_' auth? | 'out_' auth? | 'open_' auth?
//!           | '(' ')' | '(' parallel ')'
//! auth     := NAME | '*'
//! ```
//!
//! A `NAME` is any word that is not one of the six keywords. A composition
//! or a sequence of one element is that element; a co-capability without an
//! authorization admits everyone.

use vstd::prelude::*;
use vstd::string::StrSliceExecFns;
use vstd::string::StringExecFns;
use crate::ast::{Exec, Term, terms_of};
use crate::lexer::{
    Grammar, Lexeme, Token, chars_of, is_name, lemma_scan_bounds, lex, lexemes, named_kind, scan,
    tokenize, tokens,
};
use crate::display::well_formed;
use crate::names::lemma_parsed_well_formed;
use crate::redex::{everyone, wildcard};

verus! {

/// What the parser was looking for when it gave up.
#[derive(Debug, Clone, Copy, PartialEq, Eq, Structural)]
pub enum Expected {
    /// The beginning of an ambient, a capability or a parenthesized term.
    Process,
    /// The name that `in`, `out` and `open` ask for.
    Name,
    /// `]`
    ClosingBracket,
    /// `)`
    ClosingParenthesis,
    /// `|`, `.` or the end of the text.
    End,
}

/// Why a text is no program: the position of the token that does not
/// fit, counted in characters, and what was expected in its place. A text
/// that ends too early is refused at its length.
#[derive(Debug, Clone, Copy, PartialEq, Eq, Structural)]
pub struct ParseError {
    pub position: usize,
    pub expected: Expected,
}

/// The mathematical value of a [`ParseError`].
pub struct Miss {
    pub position: int,
    pub expected: Expected,
}

impl View for ParseError {
    type V = Miss;

    open spec fn view(&self) -> Miss {
        Miss { position: self.position as int, expected: self.expected }
    }
}

/// The kind of the token at `i`; past the tokens, the end.
pub open spec fn kind_at(toks: Seq<Lexeme>, i: int) -> Grammar {
    if 0 <= i < toks.len() {
        toks[i].kind
    } else {
        Grammar::End
    }
}

/// The refusal of the token at `i`.
pub open spec fn miss(toks: Seq<Lexeme>, i: int, expected: Expected) -> Miss {
    Miss { position: toks[i].start, expected }
}

/// The capability or co-capability that the keyword `kind` makes of `n`.
pub open spec fn action(kind: Grammar, n: Seq<char>) -> Term {
    match kind {
        Grammar::In => Term::In(n),
        Grammar::Out => Term::Out(n),
        Grammar::Open => Term::Open(n),
        Grammar::CoIn => Term::In_(n),
        Grammar::CoOut => Term::Out_(n),
        _ => Term::Open_(n),
    }
}

/// The keywords that need a name after them.
pub open spec fn is_capability(kind: Grammar) -> bool {
    kind == Grammar::In || kind == Grammar::Out || kind == Grammar::Open
}

/// The keywords that may stand alone.
pub open spec fn is_co_capability(kind: Grammar) -> bool {
    kind == Grammar::CoIn || kind == Grammar::CoOut || kind == Grammar::CoOpen
}

/// One element, or the composition of several.
pub open spec fn parallel_of(ts: Seq<Term>) -> Term {
    if ts.len() == 1 {
        ts[0]
    } else {
        Term::Parallel(ts)
    }
}

/// One element, or the sequence of several.
pub open spec fn serial_of(ts: Seq<Term>) -> Term {
    if ts.len() == 1 {
        ts[0]
    } else {
        Term::Serial(ts)
    }
}

/// The atom that begins at token `i`, and the token after it.
pub open spec fn parse_atom(toks: Seq<Lexeme>, i: int) -> Result<(Term, int), Miss>
    decreases toks.len() - i, 0nat,
{
    let kind = kind_at(toks, i);
    let next = kind_at(toks, i + 1);
    if is_name(kind) {
        if next == Grammar::A_ {
            if kind_at(toks, i + 2) == Grammar::_A {
                Ok((Term::Noop(toks[i].text), i + 3))
            } else {
                match parse_parallel(toks, i + 2) {
                    Ok((inside, j)) => if kind_at(toks, j) == Grammar::_A {
                        Ok((Term::Ambient(toks[i].text, Box::new(inside)), j + 1))
                    } else {
                        Err(miss(toks, j, Expected::ClosingBracket))
                    },
                    Err(e) => Err(e),
                }
            }
        } else {
            Ok((Term::Noop(toks[i].text), i + 1))
        }
    } else if is_capability(kind) {
        if is_name(next) {
            Ok((action(kind, toks[i + 1].text), i + 2))
        } else {
            Err(miss(toks, i + 1, Expected::Name))
        }
    } else if is_co_capability(kind) {
        if is_name(next) {
            Ok((action(kind, toks[i + 1].text), i + 2))
        } else if next == Grammar::Star {
            Ok((action(kind, wildcard()), i + 2))
        } else {
            Ok((action(kind, wildcard()), i + 1))
        }
    } else if kind == Grammar::P_ {
        if next == Grammar::_P {
            Ok((Term::Group(Box::new(Term::Parallel(Seq::empty()))), i + 2))
        } else {
            match parse_parallel(toks, i + 1) {
                Ok((inside, j)) => if kind_at(toks, j) == Grammar::_P {
                    Ok((Term::Group(Box::new(inside)), j + 1))
                } else {
                    Err(miss(toks, j, Expected::ClosingParenthesis))
                },
                Err(e) => Err(e),
            }
        }
    } else {
        Err(miss(toks, i, Expected::Process))
    }
}

/// The atoms of the sequence that begins at token `i`, and the token after
/// it. A parse always moves forward, so the position after an atom is never
/// before the atom.
pub open spec fn parse_atoms(toks: Seq<Lexeme>, i: int) -> Result<(Seq<Term>, int), Miss>
    decreases toks.len() - i, 1nat,
{
    match parse_atom(toks, i) {
        Ok((first, j)) => if j >= i && kind_at(toks, j) == Grammar::Wait {
            match parse_atoms(toks, j + 1) {
                Ok((others, k)) => Ok((seq![first] + others, k)),
                Err(e) => Err(e),
            }
        } else {
            Ok((seq![first], j))
        },
        Err(e) => Err(e),
    }
}

/// The sequence that begins at token `i`, and the token after it.
pub open spec fn parse_serial(toks: Seq<Lexeme>, i: int) -> Result<(Term, int), Miss>
    decreases toks.len() - i, 2nat,
{
    match parse_atoms(toks, i) {
        Ok((items, j)) => Ok((serial_of(items), j)),
        Err(e) => Err(e),
    }
}

/// The sequences of the composition that begins at token `i`, and the
/// token after it.
pub open spec fn parse_serials(toks: Seq<Lexeme>, i: int) -> Result<(Seq<Term>, int), Miss>
    decreases toks.len() - i, 3nat,
{
    match parse_serial(toks, i) {
        Ok((first, j)) => if j >= i && kind_at(toks, j) == Grammar::Parallel {
            match parse_serials(toks, j + 1) {
                Ok((others, k)) => Ok((seq![first] + others, k)),
                Err(e) => Err(e),
            }
        } else {
            Ok((seq![first], j))
        },
        Err(e) => Err(e),
    }
}

/// The composition that begins at token `i`, and the token after it.
pub open spec fn parse_parallel(toks: Seq<Lexeme>, i: int) -> Result<(Term, int), Miss>
    decreases toks.len() - i, 4nat,
{
    match parse_serials(toks, i) {
        Ok((items, j)) => Ok((parallel_of(items), j)),
        Err(e) => Err(e),
    }
}

/// The program that the tokens spell: a composition that reaches the end.
pub open spec fn parse_tokens(toks: Seq<Lexeme>) -> Result<Term, Miss> {
    match parse_parallel(toks, 0) {
        Ok((t, j)) => if kind_at(toks, j) == Grammar::End {
            Ok(t)
        } else {
            Err(miss(toks, j, Expected::End))
        },
        Err(e) => Err(e),
    }
}

/// The program that the text `s` spells.
pub open spec fn parse_text(s: Seq<char>) -> Result<Term, Miss> {
    parse_tokens(tokens(s))
}

/// The tokens `toks` are tokens of `s` in order, closed by the one end token.
pub open spec fn well_lexed(s: Seq<char>, toks: Seq<Lexeme>) -> bool {
    &&& toks.len() >= 1
    &&& forall|k: int|
        0 <= k < toks.len() ==> ((#[trigger] toks[k]).kind == Grammar::End <==> k == toks.len()
            - 1)
    &&& forall|k: int|
        0 <= k < toks.len() ==> 0 <= (#[trigger] toks[k]).start <= toks[k].end <= s.len()
            && toks[k].text == s.subrange(toks[k].start, toks[k].end)
}

/// What [`lex`] yields is well lexed.
pub proof fn lemma_lex_well_lexed(s: Seq<char>, pos: int)
    requires
        0 <= pos <= s.len(),
    ensures
        well_lexed(s, lex(s, pos)),
    decreases s.len() - pos,
{
    lemma_scan_bounds(s, pos);
    let t = scan(s, pos);
    if t.kind != Grammar::End {
        lemma_lex_well_lexed(s, t.end);
        let rest = lex(s, t.end);
        let all = seq![t] + rest;
        assert forall|k: int| 0 <= k < all.len() implies ((#[trigger] all[k]).kind == Grammar::End
            <==> k == all.len() - 1) by {
            if k > 0 {
                assert(all[k] == rest[k - 1]);
            }
        }
        assert forall|k: int| 0 <= k < all.len() implies 0 <= (#[trigger] all[k]).start
            <= all[k].end <= s.len() && all[k].text == s.subrange(all[k].start, all[k].end) by {
            if k > 0 {
                assert(all[k] == rest[k - 1]);
            }
        }
    }
}

/// A text together with its tokens.
struct Reader<'a> {
    text: &'a str,
    toks: Vec<Token>,
}

impl<'a> Reader<'a> {
    spec fn lx(&self) -> Seq<Lexeme> {
        lexemes(self.text@, self.toks@)
    }

    spec fn ready(&self) -> bool {
        well_lexed(self.text@, self.lx())
    }

    fn kind(&self, i: usize) -> (k: Grammar)
        requires
            i < self.toks.len(),
        ensures
            k == kind_at(self.lx(), i as int),
    {
        self.toks[i].kind
    }

    fn refuse(&self, i: usize, expected: Expected) -> (e: ParseError)
        requires
            self.ready(),
            i < self.toks.len(),
        ensures
            e@ == miss(self.lx(), i as int, expected),
            e.position <= self.text@.len(),
    {
        assert(self.lx()[i as int] == self.toks[i as int].lexeme(self.text@));
        ParseError { position: self.toks[i].start, expected }
    }

    fn name(&self, i: usize) -> (n: String)
        requires
            self.ready(),
            i < self.toks.len(),
        ensures
            n@ == self.lx()[i as int].text,
    {
        let t = &self.toks[i];
        assert(self.lx()[i as int] == t.lexeme(self.text@));
        String::from_str(self.text.substring_char(t.start, t.end))
    }

    fn atom(&self, i: usize) -> (r: Result<(Exec, usize), ParseError>)
        requires
            self.ready(),
            i < self.toks.len(),
        ensures
            match r {
                Ok((e, j)) => parse_atom(self.lx(), i as int) == Ok::<(Term, int), Miss>(
                    (e@, j as int),
                ) && i < j < self.toks.len(),
                Err(e) => parse_atom(self.lx(), i as int) == Err::<(Term, int), Miss>(e@)
                    && e.position <= self.text@.len(),
            },
        decreases self.toks.len() - i, 0nat,
    {
        let ghost lx = self.lx();
        let kind = self.kind(i);
        if named_kind(kind) {
            if self.kind(i + 1) == Grammar::A_ {
                if self.kind(i + 2) == Grammar::_A {
                    let r = (Exec::Noop(self.name(i)), i + 3);
                    Ok(r)
                } else {
                    match self.parallel(i + 2) {
                        Ok((inside, j)) => {
                            if self.kind(j) == Grammar::_A {
                                let r = (Exec::Ambient(self.name(i), Box::new(inside)), j + 1);
                                Ok(r)
                            } else {
                                let e = self.refuse(j, Expected::ClosingBracket);
                                Err(e)
                            }
                        },
                        Err(e) => {
                            Err(e)
                        },
                    }
                }
            } else {
                let r = (Exec::Noop(self.name(i)), i + 1);
                Ok(r)
            }
        } else if kind == Grammar::In || kind == Grammar::Out || kind == Grammar::Open {
            if named_kind(self.kind(i + 1)) {
                let r = (make_action(kind, self.name(i + 1)), i + 2);
                Ok(r)
            } else {
                let e = self.refuse(i + 1, Expected::Name);
                Err(e)
            }
        } else if kind == Grammar::CoIn || kind == Grammar::CoOut || kind == Grammar::CoOpen {
            let next = self.kind(i + 1);
            if named_kind(next) {
                let r = (make_action(kind, self.name(i + 1)), i + 2);
                Ok(r)
            } else if next == Grammar::Star {
                let r = (make_action(kind, everyone()), i + 2);
                Ok(r)
            } else {
                let r = (make_action(kind, everyone()), i + 1);
                Ok(r)
            }
        } else if kind == Grammar::P_ {
            if self.kind(i + 1) == Grammar::_P {
                let nothing: Vec<Exec> = Vec::new();
                assert(terms_of(nothing@) =~= Seq::<Term>::empty());
                let inside = Exec::Parallel(nothing);
                assert(inside@ == Term::Parallel(Seq::empty()));
                let r = (Exec::Group(Box::new(inside)), i + 2);
                Ok(r)
            } else {
                match self.parallel(i + 1) {
                    Ok((inside, j)) => {
                        if self.kind(j) == Grammar::_P {
                            let r = (Exec::Group(Box::new(inside)), j + 1);
                            Ok(r)
                        } else {
                            let e = self.refuse(j, Expected::ClosingParenthesis);
                            Err(e)
                        }
                    },
                    Err(e) => {
                        Err(e)
                    },
                }
            }
        } else {
            let e = self.refuse(i, Expected::Process);
            Err(e)
        }
    }

    fn serial(&self, i: usize) -> (r: Result<(Exec, usize), ParseError>)
        requires
            self.ready(),
            i < self.toks.len(),
        ensures
            match r {
                Ok((e, j)) => parse_serial(self.lx(), i as int) == Ok::<(Term, int), Miss>(
                    (e@, j as int),
                ) && i < j < self.toks.len(),
                Err(e) => parse_serial(self.lx(), i as int) == Err::<(Term, int), Miss>(e@)
                    && e.position <= self.text@.len(),
            },
        decreases self.toks.len() - i, 2nat,
    {
        let ghost lx = self.lx();
        let mut items: Vec<Exec> = Vec::new();
        let mut at = i;
        assert(terms_of(items@) =~= Seq::<Term>::empty());
        loop
            invariant_except_break
                parse_atoms(lx, i as int) == glue(terms_of(items@), parse_atoms(lx, at as int)),
                items@.len() == 0 ==> at == i,
            invariant
                self.ready(),
                lx == self.lx(),
                i <= at < self.toks.len(),
            ensures
                parse_atoms(lx, i as int) == Ok::<(Seq<Term>, int), Miss>(
                    (terms_of(items@), at as int),
                ),
                i < at < self.toks.len(),
            decreases self.toks.len() - at,
        {
            match self.atom(at) {
                Ok((first, j)) => {
                    let ghost before = terms_of(items@);
                    items.push(first);
                    assert(terms_of(items@) =~= before + seq![first@]);
                    if self.kind(j) == Grammar::Wait {
                        proof {
                            lemma_glue(before, first@, parse_atoms(lx, j + 1));
                        }
                        at = j + 1;
                    } else {
                        at = j;
                        break ;
                    }
                },
                Err(e) => {
                    return Err(e);
                },
            }
        }
        if items.len() == 1 {
            let only = items.remove(0);
            assert(terms_of(seq![only])[0] == only@);
            Ok((only, at))
        } else {
            Ok((Exec::Serial(items), at))
        }
    }

    fn parallel(&self, i: usize) -> (r: Result<(Exec, usize), ParseError>)
        requires
            self.ready(),
            i < self.toks.len(),
        ensures
            match r {
                Ok((e, j)) => parse_parallel(self.lx(), i as int) == Ok::<(Term, int), Miss>(
                    (e@, j as int),
                ) && i < j < self.toks.len(),
                Err(e) => parse_parallel(self.lx(), i as int) == Err::<(Term, int), Miss>(e@)
                    && e.position <= self.text@.len(),
            },
        decreases self.toks.len() - i, 4nat,
    {
        let ghost lx = self.lx();
        let mut items: Vec<Exec> = Vec::new();
        let mut at = i;
        assert(terms_of(items@) =~= Seq::<Term>::empty());
        loop
            invariant_except_break
                parse_serials(lx, i as int) == glue(terms_of(items@), parse_serials(lx, at as int)),
                items@.len() == 0 ==> at == i,
            invariant
                self.ready(),
                lx == self.lx(),
                i <= at < self.toks.len(),
            ensures
                parse_serials(lx, i as int) == Ok::<(Seq<Term>, int), Miss>(
                    (terms_of(items@), at as int),
                ),
                i < at < self.toks.len(),
            decreases self.toks.len() - at,
        {
            match self.serial(at) {
                Ok((first, j)) => {
                    let ghost before = terms_of(items@);
                    items.push(first);
                    assert(terms_of(items@) =~= before + seq![first@]);
                    if self.kind(j) == Grammar::Parallel {
                        proof {
                            lemma_glue(before, first@, parse_serials(lx, j + 1));
                        }
                        at = j + 1;
                    } else {
                        at = j;
                        break ;
                    }
                },
                Err(e) => {
                    return Err(e);
                },
            }
        }
        if items.len() == 1 {
            let only = items.remove(0);
            assert(terms_of(seq![only])[0] == only@);
            Ok((only, at))
        } else {
            Ok((Exec::Parallel(items), at))
        }
    }
}

/// `found` with the elements `done` before its own.
pub open spec fn glue(done: Seq<Term>, found: Result<(Seq<Term>, int), Miss>) -> Result<
    (Seq<Term>, int),
    Miss,
> {
    match found {
        Ok((others, k)) => Ok((done + others, k)),
        Err(e) => Err(e),
    }
}

proof fn lemma_glue(done: Seq<Term>, first: Term, found: Result<(Seq<Term>, int), Miss>)
    ensures
        glue(done, glue(seq![first], found)) == glue(done + seq![first], found),
{
    match found {
        Ok((others, k)) => {
            assert(done + (seq![first] + others) =~= (done + seq![first]) + others);
        },
        Err(e) => {},
    }
}

fn make_action(kind: Grammar, n: String) -> (e: Exec)
    ensures
        e@ == action(kind, n@),
{
    match kind {
        Grammar::In => Exec::In(n),
        Grammar::Out => Exec::Out(n),
        Grammar::Open => Exec::Open(n),
        Grammar::CoIn => Exec::In_(n),
        Grammar::CoOut => Exec::Out_(n),
        _ => Exec::Open_(n),
    }
}

/// Reads a program.
///
/// The result is the term that the text spells, which is well formed, or
/// the first token that does not fit with what was expected in its place;
/// its position lies in the text or, where the text ends too early, at the
/// end of it.
pub fn parse(source: &str) -> (r: Result<Exec, ParseError>)
    ensures
        match r {
            Ok(e) => parse_text(source@) == Ok::<Term, Miss>(e@) && well_formed(e@),
            Err(e) => parse_text(source@) == Err::<Term, Miss>(e@) && e.position
                <= source@.len(),
        },
{
    let chars = chars_of(source);
    let toks = tokenize(&chars);
    let reader = Reader { text: source, toks };
    proof {
        lemma_lex_well_lexed(source@, 0);
        lemma_parsed_well_formed(source@);
    }
    match reader.parallel(0) {
        Ok((e, j)) => {
            if reader.kind(j) == Grammar::End {
                Ok(e)
            } else {
                Err(reader.refuse(j, Expected::End))
            }
        },
        Err(e) => Err(e),
    }
}

} // verus!
