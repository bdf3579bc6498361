//! The encoding of JavaScript programs as ambients.
//!
//! A function without parameters is a `func` ambient that dissolves once it
//! is opened, beside the capability that opens it; a string is a `string`
//! ambient around the ambient named by its characters:
//!
//! ```text
//! () => "hello"      func[open_ | string[hello[]]] | open func
//! ```
//!
//! Evaluating the function is one reduction, which leaves its body.

use vstd::prelude::*;
use vstd::string::StringExecFns;
use crate::ast::{Exec, Term, terms_of};
use crate::display::{is_legal, is_legal_name};
use crate::process::{Cap, Proc, shape, shapes};
use crate::redex::{Rule, Site, earliest, everyone, valid, wildcard};
use crate::reducer::{reduces_to, run, takes};
use crate::rewrite::rewrite;

verus! {

/// What a JavaScript program is made of, as far as it is encoded.
#[derive(Debug)]
pub enum Js {
    /// A function without parameters, `() => ...`, with the statements of
    /// its body.
    Arrow(Vec<Js>),
    /// A string, without its quotes.
    Text(String),
    /// Anything else.
    Other,
}

/// A JavaScript program: its statements.
#[derive(Debug)]
pub struct Module {
    pub body: Vec<Js>,
}

/// The mathematical value of a [`Js`].
pub enum JsTerm {
    Arrow(Seq<JsTerm>),
    Text(Seq<char>),
    Other,
}

/// Why a program has no encoding.
#[derive(Debug, Clone, Copy, PartialEq, Eq, Structural)]
pub enum NoEncoding {
    /// The program holds something that is neither a function without
    /// parameters nor a string.
    Unsupported,
    /// The program holds a string whose characters are no name.
    NotAName,
}

/// The value of a piece of a program.
pub open spec fn js_of(j: Js) -> JsTerm
    decreases j,
{
    match j {
        Js::Arrow(body) => JsTerm::Arrow(all_js_of(body@)),
        Js::Text(s) => JsTerm::Text(s@),
        Js::Other => JsTerm::Other,
    }
}

/// The values of the pieces `js`, in order.
pub open spec fn all_js_of(js: Seq<Js>) -> Seq<JsTerm>
    decreases js,
{
    Seq::new(
        js.len(),
        |i: int|
            if 0 <= i < js.len() {
                js_of(js[i])
            } else {
                JsTerm::Other
            },
    )
}

impl View for Js {
    type V = JsTerm;

    open spec fn view(&self) -> JsTerm {
        js_of(*self)
    }
}

/// The term of a function whose body is encoded as `inside`.
pub open spec fn function_of(inside: Term) -> Term {
    Term::Parallel(
        seq![
            Term::Ambient(
                "func"@,
                Box::new(Term::Parallel(seq![Term::Open_(wildcard()), inside])),
            ),
            Term::Open("func"@),
        ],
    )
}

/// The term that encodes `j`.
pub open spec fn encode(j: JsTerm) -> Result<Term, NoEncoding>
    decreases j,
{
    match j {
        JsTerm::Arrow(body) => match encode_body(body) {
            Ok(inside) => Ok(function_of(inside)),
            Err(e) => Err(e),
        },
        JsTerm::Text(s) => if is_legal_name(s) {
            Ok(Term::Ambient("string"@, Box::new(Term::Noop(s))))
        } else {
            Err(NoEncoding::NotAName)
        },
        JsTerm::Other => Err(NoEncoding::Unsupported),
    }
}

/// The terms that encode the first `upto` of the statements `body`, or
/// the reason why the first of them that has no encoding has none.
pub open spec fn encode_each(body: Seq<JsTerm>, upto: nat) -> Result<Seq<Term>, NoEncoding>
    decreases body, upto,
{
    if upto == 0 || upto > body.len() {
        Ok(Seq::empty())
    } else {
        match encode_each(body, (upto - 1) as nat) {
            Ok(done) => match encode(body[upto - 1]) {
                Ok(t) => Ok(done.push(t)),
                Err(e) => Err(e),
            },
            Err(e) => Err(e),
        }
    }
}

/// The term that encodes the statements `body`: the encoding of the one
/// statement, or the composition of the encodings of all.
pub open spec fn encode_body(body: Seq<JsTerm>) -> Result<Term, NoEncoding>
    decreases body, body.len() + 1,
{
    match encode_each(body, body.len()) {
        Ok(ts) => if ts.len() == 1 {
            Ok(ts[0])
        } else {
            Ok(Term::Parallel(ts))
        },
        Err(e) => Err(e),
    }
}

fn name_of(text: &str) -> (n: String)
    ensures
        n@ == text@,
{
    String::from_str(text)
}

fn function(inside: Exec) -> (r: Exec)
    ensures
        r@ == function_of(inside@),
{
    let mut content: Vec<Exec> = Vec::new();
    content.push(Exec::Open_(everyone()));
    content.push(inside);
    assert(terms_of(content@) =~= seq![Term::Open_(wildcard()), inside@]);
    let composed = Exec::Parallel(content);
    assert(composed@ == Term::Parallel(seq![Term::Open_(wildcard()), inside@]));
    let func = Exec::Ambient(name_of("func"), Box::new(composed));
    assert(func@ == Term::Ambient("func"@, Box::new(composed@)));
    let opener = Exec::Open(name_of("func"));
    let mut both: Vec<Exec> = Vec::new();
    both.push(func);
    both.push(opener);
    assert(terms_of(both@) =~= seq![func@, opener@]);
    Exec::Parallel(both)
}

fn encode_one(j: &Js) -> (r: Result<Exec, NoEncoding>)
    ensures
        match r {
            Ok(e) => encode(j@) == Ok::<Term, NoEncoding>(e@),
            Err(e) => encode(j@) == Err::<Term, NoEncoding>(e),
        },
    decreases j,
{
    match j {
        Js::Arrow(body) => match encode_all(body) {
            Ok(inside) => Ok(function(inside)),
            Err(e) => Err(e),
        },
        Js::Text(s) => {
            if is_legal(s) {
                let bare = Exec::Noop(s.clone());
                assert(bare@ == Term::Noop(s@));
                Ok(Exec::Ambient(name_of("string"), Box::new(bare)))
            } else {
                Err(NoEncoding::NotAName)
            }
        },
        Js::Other => Err(NoEncoding::Unsupported),
    }
}

fn encode_all(body: &Vec<Js>) -> (r: Result<Exec, NoEncoding>)
    ensures
        match r {
            Ok(e) => encode_body(all_js_of(body@)) == Ok::<Term, NoEncoding>(e@),
            Err(e) => encode_body(all_js_of(body@)) == Err::<Term, NoEncoding>(e),
        },
    decreases body,
{
    let ghost js = all_js_of(body@);
    let mut parts: Vec<Exec> = Vec::new();
    let mut i: usize = 0;
    assert(terms_of(parts@) =~= Seq::<Term>::empty());
    while i < body.len()
        invariant
            i <= body.len(),
            js == all_js_of(body@),
            encode_each(js, i as nat) == Ok::<Seq<Term>, NoEncoding>(terms_of(parts@)),
        decreases body.len() - i,
    {
        match encode_one(&body[i]) {
            Ok(t) => {
                let ghost before = terms_of(parts@);
                parts.push(t);
                assert(terms_of(parts@) =~= before.push(t@));
            },
            Err(e) => {
                proof {
                    lemma_encode_each_fails(js, (i + 1) as nat, body.len() as nat);
                }
                return Err(e);
            },
        }
        i += 1;
    }
    if parts.len() == 1 {
        let only = parts.remove(0);
        assert(terms_of(seq![only])[0] == only@);
        Ok(only)
    } else {
        Ok(Exec::Parallel(parts))
    }
}

/// Once a statement has no encoding, no longer list of statements has one.
proof fn lemma_encode_each_fails(body: Seq<JsTerm>, failed: nat, upto: nat)
    requires
        encode_each(body, failed) is Err,
        failed <= upto <= body.len(),
    ensures
        encode_each(body, upto) == encode_each(body, failed),
    decreases upto,
{
    if failed < upto {
        lemma_encode_each_fails(body, failed, (upto - 1) as nat);
    }
}

/// The ambient term that encodes the program `module`.
///
/// The result is the encoding of its statements, or the reason why the
/// first statement (or part of a statement) without an encoding has none.
pub fn js2amb(module: &Module) -> (r: Result<Exec, NoEncoding>)
    ensures
        match r {
            Ok(e) => encode_body(all_js_of(module.body@)) == Ok::<Term, NoEncoding>(e@),
            Err(e) => encode_body(all_js_of(module.body@)) == Err::<Term, NoEncoding>(e),
        },
{
    encode_all(&module.body)
}

proof fn lemma_shapes_of_two(a: Term, b: Term)
    ensures
        shapes(seq![a, b]) == shape(a) + shape(b),
{
    let both = seq![a, b];
    assert(both.drop_last() =~= seq![a]);
    assert(seq![a].drop_last() =~= Seq::<Term>::empty());
    assert(shapes(Seq::<Term>::empty()) =~= Seq::<Proc>::empty());
    assert(shapes(seq![a]) =~= shape(a));
}

/// The site at which a function at the root is opened.
pub open spec fn call_site() -> Site {
    Site {
        rule: Rule::Dissolution,
        scope: Seq::empty(),
        requester: 1,
        capability: 0,
        target: 0,
        grant: 0,
    }
}

/// Evaluating a function is one step, and leaves the body of the
/// function: the term of a function reduces to the term of its body.
pub proof fn lemma_function_evaluates(inside: Term)
    ensures
        takes(shape(function_of(inside)), call_site()),
        rewrite(shape(function_of(inside)), call_site()) == shape(inside),
        reduces_to(shape(function_of(inside)), shape(inside)),
{
    reveal_strlit("func");
    let content = seq![Term::Open_(wildcard()), inside];
    let func = Term::Ambient("func"@, Box::new(Term::Parallel(content)));
    let opener = Proc::Act(Cap::Open, "func"@);
    let grant = Proc::Act(Cap::CoOpen, wildcard());
    let amb = Proc::Amb("func"@, seq![grant] + shape(inside));
    lemma_shapes_of_two(Term::Open_(wildcard()), inside);
    assert(shape(Term::Parallel(content)) == seq![grant] + shape(inside));
    assert(shape(func) == seq![amb]);
    lemma_shapes_of_two(func, Term::Open("func"@));
    let bs = shape(function_of(inside));
    assert(bs =~= seq![amb, opener]);
    let s = call_site();
    assert(valid(bs, s));
    assert(earliest(bs, None, s.scope));
    assert(rewrite(bs, s) =~= shape(inside));
    let trace = seq![s];
    assert(trace.drop_last() =~= Seq::<Site>::empty());
    assert(run(bs, trace.drop_last()) == Some(bs));
    assert(run(bs, trace) == Some(shape(inside)));
}

} // verus!
