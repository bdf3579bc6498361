//! A deployed ambient: a program under a name, identified by its manifest.

use vstd::prelude::*;
use vstd::string::StringExecFns;
use crate::ast::{Exec, Term};
use crate::parser::{Miss, ParseError, parse, parse_text};

verus! {

/// The ambient is the fundamental computation abstraction in ambient
/// calculus: a computation container with well-defined boundaries that
/// separate it from other ambients and isolate its internal computation
/// from the outside world.
///
/// Ambients are addressed by name. Two distinct ambients can share a name,
/// and once an ambient is created its name cannot change.
#[derive(Debug)]
pub struct Ambient<'a> {
    cid: String,
    name: &'a str,
    program: &'a str,
}

impl<'a> Ambient<'a> {
    /// The identifier of the ambient.
    pub closed spec fn cid_text(&self) -> Seq<char> {
        self.cid@
    }

    /// The name of the ambient.
    pub closed spec fn name_text(&self) -> Seq<char> {
        self.name@
    }

    /// The text of the program.
    pub closed spec fn program_text(&self) -> Seq<char> {
        self.program@
    }

    /// The ambient `name` with the program `program`, deployed under the
    /// identifier `cid` of its manifest.
    pub fn new(name: &'a str, program: &'a str, cid: String) -> (r: Ambient<'a>)
        ensures
            r.cid_text() == cid@,
            r.name_text() == name@,
            r.program_text() == program@,
    {
        Ambient { cid, name, program }
    }

    /// The identifier of the ambient.
    pub fn cid(&self) -> (r: &str)
        ensures
            r@ == self.cid_text(),
    {
        self.cid.as_str()
    }

    /// The name of the ambient.
    pub fn name(&self) -> (r: &'a str)
        ensures
            r@ == self.name_text(),
    {
        self.name
    }

    /// The text of the program.
    pub fn program(&self) -> (r: &'a str)
        ensures
            r@ == self.program_text(),
    {
        self.program
    }

    /// The term that the program spells.
    pub fn ast(&self) -> (r: Result<Exec, ParseError>)
        ensures
            match r {
                Ok(e) => parse_text(self.program_text()) == Ok::<Term, Miss>(e@),
                Err(e) => parse_text(self.program_text()) == Err::<Term, Miss>(e@),
            },
    {
        parse(self.program)
    }

    /// The label under which an ambient is listed, whatever its program.
    pub fn to_string(&self) -> (r: String)
        ensures
            r@ == "\"ambient\""@,
    {
        String::from_str("\"ambient\"")
    }
}

} // verus!
