//! The ambient: a program held as the term that its text spells.

use vstd::prelude::*;
use vstd::string::StringExecFns;
use crate::ast::{Exec, Term};
use crate::parser::{Miss, ParseError, parse, parse_text};

verus! {

/// The ambient is the fundamental computation abstraction of the calculus:
/// a container with a boundary that separates the computation inside it
/// from everything outside.
#[derive(Debug)]
pub struct Ambient {
    ast: Exec,
}

impl Ambient {
    /// The term of the ambient.
    pub closed spec fn term(&self) -> Term {
        self.ast@
    }

    /// Reads the program of an ambient.
    pub fn from_str(program: &str) -> (r: Result<Ambient, ParseError>)
        ensures
            match r {
                Ok(a) => parse_text(program@) == Ok::<Term, Miss>(a.term()),
                Err(e) => parse_text(program@) == Err::<Term, Miss>(e@),
            },
    {
        match parse(program) {
            Ok(ast) => Ok(Ambient { ast }),
            Err(e) => Err(e),
        }
    }

    /// The term of the ambient.
    pub fn ast(&self) -> (e: &Exec)
        ensures
            e@ == self.term(),
    {
        &self.ast
    }

    /// The label under which an ambient is listed, whatever its program.
    pub fn to_string(&self) -> (r: String)
        ensures
            r@ == "\"ambient\""@,
    {
        String::from_str("\"ambient\"")
    }
}

impl std::str::FromStr for Ambient {
    type Err = ParseError;

    fn from_str(program: &str) -> (r: Result<Ambient, ParseError>)
        ensures
            match r {
                Ok(a) => parse_text(program@) == Ok::<Term, Miss>(a.term()),
                Err(e) => parse_text(program@) == Err::<Term, Miss>(e@),
            },
    {
        Ambient::from_str(program)
    }
}

} // verus!
