//! An executable ambient calculus with authorization co-capabilities.
//!
//! Programs are nested, mobile, named containers (ambients) that move into
//! and out of one another and dissolve, each move being granted by the
//! ambient it concerns. A program is written as text, read into a term,
//! and reduced until no rule applies; what is left is its value.
//!
//! * [`ast`] holds the term model, [`lexer`] and [`parser`] read a text
//!   into a term, and [`display`] writes a term as text;
//! * [`process`] reads a term as the processes that run side by side in it,
//!   and [`congruence`] compares terms by their processes;
//! * [`redex`] finds a place where a rule applies, [`rewrite`] says what
//!   the rule does there, and [`reducer`] steps and reduces to normal form;
//! * [`roundtrip`] and [`names`] prove that what is written is read back,
//!   and that the results of programs are programs;
//! * [`ambient`], [`deployed`], [`manifest`] and [`keypair`] hold programs
//!   and what is recorded of them when they are deployed, and [`jsparser`]
//!   encodes functions of another language as ambients.

pub mod ambient;
pub mod ast;
pub mod congruence;
pub mod deployed;
pub mod display;
pub mod jsparser;
pub mod keypair;
pub mod lexer;
pub mod manifest;
pub mod names;
pub mod parser;
pub mod process;
pub mod redex;
pub mod reducer;
pub mod rewrite;
pub mod roundtrip;
