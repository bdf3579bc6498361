//! The lexical layer: from characters to tokens.
//!
//! Blanks separate tokens and are otherwise skipped. A word is a longest run
//! of the characters `a-z`, `A-Z`, `_` and `-`; a word that spells a keyword
//! gets the keyword's token, any other word is a [`Grammar::Name`]. The
//! brackets, the bar, the dot and the star are tokens of one character, and
//! any other character is an [`Grammar::Error`] token of its own.

#![allow(non_camel_case_types)]

use vstd::prelude::*;
use vstd::string::StrSliceExecFns;

verus! {

/// The kinds of token.
#[derive(Debug, Clone, Copy, PartialEq, Eq, Structural)]
pub enum Grammar {
    /// `[`
    A_,
    /// `]`
    _A,
    /// The word `arg`.
    Arg,
    /// The word `call`.
    Call,
    /// The word `create`.
    Create,
    /// The keyword `in_`.
    CoIn,
    /// The keyword `open_`.
    CoOpen,
    /// The keyword `out_`.
    CoOut,
    /// The word `deploy`.
    Deploy,
    /// The word `func`.
    Func,
    /// The keyword `in`.
    In,
    /// The keyword `open`.
    Open,
    /// The keyword `out`.
    Out,
    /// `(`
    P_,
    /// `)`
    _P,
    /// `|`
    Parallel,
    /// The word `return`.
    Return,
    /// The word `string`.
    Str,
    /// `.`
    Wait,
    /// `*`
    Star,
    /// Any other word.
    Name,
    /// The end of the text.
    End,
    /// A character that belongs to no token.
    Error,
}

/// A token of a text: its kind and the characters `start..end` it covers.
#[derive(Debug, Clone, Copy, PartialEq, Eq, Structural)]
pub struct Token {
    pub kind: Grammar,
    pub start: usize,
    pub end: usize,
}

/// The mathematical value of a [`Token`], together with its text.
pub struct Lexeme {
    pub kind: Grammar,
    pub text: Seq<char>,
    pub start: int,
    pub end: int,
}

impl Token {
    /// The token as a lexeme of the text `s`.
    pub open spec fn lexeme(self, s: Seq<char>) -> Lexeme {
        Lexeme {
            kind: self.kind,
            text: s.subrange(self.start as int, self.end as int),
            start: self.start as int,
            end: self.end as int,
        }
    }
}

/// The characters that separate tokens.
pub open spec fn is_blank(c: char) -> bool {
    c == ' ' || c == '\t' || c == '\n' || c == '\r' || c == '\x0c'
}

/// The characters that words are made of.
pub open spec fn is_name_char(c: char) -> bool {
    ('a' <= c && c <= 'z') || ('A' <= c && c <= 'Z') || c == '_' || c == '-'
}

/// The token of a character that is a token by itself.
pub open spec fn symbol(c: char) -> Option<Grammar> {
    if c == '[' {
        Some(Grammar::A_)
    } else if c == ']' {
        Some(Grammar::_A)
    } else if c == '(' {
        Some(Grammar::P_)
    } else if c == ')' {
        Some(Grammar::_P)
    } else if c == '|' {
        Some(Grammar::Parallel)
    } else if c == '.' {
        Some(Grammar::Wait)
    } else if c == '*' {
        Some(Grammar::Star)
    } else {
        None
    }
}

/// The token of a word.
pub open spec fn classify(w: Seq<char>) -> Grammar {
    if w == "in"@ {
        Grammar::In
    } else if w == "in_"@ {
        Grammar::CoIn
    } else if w == "out"@ {
        Grammar::Out
    } else if w == "out_"@ {
        Grammar::CoOut
    } else if w == "open"@ {
        Grammar::Open
    } else if w == "open_"@ {
        Grammar::CoOpen
    } else if w == "arg"@ {
        Grammar::Arg
    } else if w == "call"@ {
        Grammar::Call
    } else if w == "create"@ {
        Grammar::Create
    } else if w == "deploy"@ {
        Grammar::Deploy
    } else if w == "func"@ {
        Grammar::Func
    } else if w == "return"@ {
        Grammar::Return
    } else if w == "string"@ {
        Grammar::Str
    } else {
        Grammar::Name
    }
}

/// The first position from `pos` on that holds no blank.
pub open spec fn skip_blank(s: Seq<char>, pos: int) -> int
    decreases s.len() - pos,
{
    if 0 <= pos < s.len() && is_blank(s[pos]) {
        skip_blank(s, pos + 1)
    } else {
        pos
    }
}

/// The first position from `pos` on that holds no character of a word.
pub open spec fn word_end(s: Seq<char>, pos: int) -> int
    decreases s.len() - pos,
{
    if 0 <= pos < s.len() && is_name_char(s[pos]) {
        word_end(s, pos + 1)
    } else {
        pos
    }
}

/// The lexeme of kind `kind` that covers `start..end` of `s`.
pub open spec fn lexeme_at(s: Seq<char>, kind: Grammar, start: int, end: int) -> Lexeme {
    Lexeme { kind, text: s.subrange(start, end), start, end }
}

/// The first token of `s` at or after `pos`.
pub open spec fn scan(s: Seq<char>, pos: int) -> Lexeme {
    let start = skip_blank(s, pos);
    if start >= s.len() {
        lexeme_at(s, Grammar::End, s.len() as int, s.len() as int)
    } else if is_name_char(s[start]) {
        let end = word_end(s, start);
        Lexeme { kind: classify(s.subrange(start, end)), text: s.subrange(start, end), start, end }
    } else {
        match symbol(s[start]) {
            Some(kind) => lexeme_at(s, kind, start, start + 1),
            None => lexeme_at(s, Grammar::Error, start, start + 1),
        }
    }
}

/// The tokens of `s` from `pos` on, up to and including the end token.
pub open spec fn lex(s: Seq<char>, pos: int) -> Seq<Lexeme>
    decreases s.len() - pos,
    when 0 <= pos <= s.len()
{
    let t = scan(s, pos);
    if t.kind == Grammar::End {
        seq![t]
    } else {
        proof {
            lemma_scan_bounds(s, pos);
        }
        seq![t] + lex(s, t.end)
    }
}

/// The tokens of the text `s`.
pub open spec fn tokens(s: Seq<char>) -> Seq<Lexeme> {
    lex(s, 0)
}

/// Blanks, and nothing but blanks, are skipped.
pub proof fn lemma_skip_blank(s: Seq<char>, pos: int)
    requires
        0 <= pos <= s.len(),
    ensures
        pos <= skip_blank(s, pos) <= s.len(),
        skip_blank(s, pos) < s.len() ==> !is_blank(s[skip_blank(s, pos)]),
        forall|i: int| pos <= i < skip_blank(s, pos) ==> is_blank(#[trigger] s[i]),
    decreases s.len() - pos,
{
    if pos < s.len() && is_blank(s[pos]) {
        lemma_skip_blank(s, pos + 1);
    }
}

/// A word ends where its characters end, and not before.
pub proof fn lemma_word_end(s: Seq<char>, pos: int)
    requires
        0 <= pos <= s.len(),
    ensures
        pos <= word_end(s, pos) <= s.len(),
        word_end(s, pos) < s.len() ==> !is_name_char(s[word_end(s, pos)]),
        forall|i: int| pos <= i < word_end(s, pos) ==> is_name_char(#[trigger] s[i]),
        pos < s.len() && is_name_char(s[pos]) ==> pos < word_end(s, pos),
    decreases s.len() - pos,
{
    if pos < s.len() && is_name_char(s[pos]) {
        lemma_word_end(s, pos + 1);
    }
}

/// A token lies in the text, at or after the place where the scan began,
/// and only the end token is empty.
pub proof fn lemma_scan_bounds(s: Seq<char>, pos: int)
    requires
        0 <= pos <= s.len(),
    ensures
        pos <= scan(s, pos).start <= scan(s, pos).end <= s.len(),
        scan(s, pos).kind != Grammar::End ==> scan(s, pos).start < scan(s, pos).end,
        scan(s, pos).kind == Grammar::End ==> scan(s, pos).start == s.len(),
        scan(s, pos).text == s.subrange(scan(s, pos).start, scan(s, pos).end),
{
    lemma_skip_blank(s, pos);
    let start = skip_blank(s, pos);
    if start < s.len() && is_name_char(s[start]) {
        lemma_word_end(s, start);
        lemma_classify_word(s.subrange(start, word_end(s, start)));
    }
}

/// A word: one character of a name at least, and no other character.
pub open spec fn is_wordlike(w: Seq<char>) -> bool {
    w.len() > 0 && forall|i: int| 0 <= i < w.len() ==> is_name_char(#[trigger] w[i])
}

/// A token whose kind is that of a word is a word, and has the kind of
/// that word.
pub proof fn lemma_scan_word(s: Seq<char>, pos: int)
    requires
        0 <= pos <= s.len(),
        is_word(scan(s, pos).kind),
    ensures
        is_wordlike(scan(s, pos).text),
        scan(s, pos).kind == classify(scan(s, pos).text),
{
    lemma_skip_blank(s, pos);
    let start = skip_blank(s, pos);
    if start < s.len() && is_name_char(s[start]) {
        lemma_word_end(s, start);
        let end = word_end(s, start);
        assert forall|i: int| 0 <= i < end - start implies is_name_char(
            #[trigger] s.subrange(start, end)[i],
        ) by {
            assert(is_name_char(s[start + i]));
        }
    }
}

/// No word is the end token, an error or a symbol.
pub proof fn lemma_classify_word(w: Seq<char>)
    ensures
        is_word(classify(w)),
{
}

/// The kinds that words have.
pub open spec fn is_word(kind: Grammar) -> bool {
    is_keyword(kind) || is_name(kind)
}

/// The kinds of the six keywords.
pub open spec fn is_keyword(kind: Grammar) -> bool {
    kind == Grammar::In || kind == Grammar::CoIn || kind == Grammar::Out || kind == Grammar::CoOut
        || kind == Grammar::Open || kind == Grammar::CoOpen
}

/// The kinds that can name an ambient: every word but the keywords.
pub open spec fn is_name(kind: Grammar) -> bool {
    kind == Grammar::Name || kind == Grammar::Arg || kind == Grammar::Call || kind
        == Grammar::Create || kind == Grammar::Deploy || kind == Grammar::Func || kind
        == Grammar::Return || kind == Grammar::Str
}

/// Whether a token of kind `kind` can name an ambient.
pub fn named_kind(kind: Grammar) -> (r: bool)
    ensures
        r == is_name(kind),
{
    kind == Grammar::Name || kind == Grammar::Arg || kind == Grammar::Call || kind
        == Grammar::Create || kind == Grammar::Deploy || kind == Grammar::Func || kind
        == Grammar::Return || kind == Grammar::Str
}

/// The characters of a text.
pub fn chars_of(text: &str) -> (v: Vec<char>)
    ensures
        v@ == text@,
{
    let mut v: Vec<char> = Vec::new();
    for c in it: text.chars()
        invariant
            v@ == it.seq().take(it.index() as int),
    {
        v.push(c);
    }
    v
}

fn blank(c: char) -> (r: bool)
    ensures
        r == is_blank(c),
{
    c == ' ' || c == '\t' || c == '\n' || c == '\r' || c == '\x0c'
}

pub(crate) fn name_char(c: char) -> (r: bool)
    ensures
        r == is_name_char(c),
{
    ('a' <= c && c <= 'z') || ('A' <= c && c <= 'Z') || c == '_' || c == '-'
}

fn symbol_of(c: char) -> (r: Option<Grammar>)
    ensures
        r == symbol(c),
{
    if c == '[' {
        Some(Grammar::A_)
    } else if c == ']' {
        Some(Grammar::_A)
    } else if c == '(' {
        Some(Grammar::P_)
    } else if c == ')' {
        Some(Grammar::_P)
    } else if c == '|' {
        Some(Grammar::Parallel)
    } else if c == '.' {
        Some(Grammar::Wait)
    } else if c == '*' {
        Some(Grammar::Star)
    } else {
        None
    }
}

/// Whether the characters `start..end` of `source` spell `word`.
fn spells(source: &Vec<char>, start: usize, end: usize, word: &str) -> (r: bool)
    requires
        start <= end <= source.len(),
    ensures
        r == (source@.subrange(start as int, end as int) == word@),
{
    let n = word.unicode_len();
    if end - start != n {
        return false;
    }
    let mut i: usize = 0;
    while i < n
        invariant
            i <= n,
            n == word@.len(),
            n == end - start,
            start <= end <= source.len(),
            forall|j: int| 0 <= j < i ==> source@[start + j] == word@[j],
        decreases n - i,
    {
        if source[start + i] != word.get_char(i) {
            assert(source@.subrange(start as int, end as int)[i as int] != word@[i as int]);
            return false;
        }
        i += 1;
    }
    assert(source@.subrange(start as int, end as int) =~= word@);
    true
}

pub(crate) fn classify_word(source: &Vec<char>, start: usize, end: usize) -> (r: Grammar)
    requires
        start <= end <= source.len(),
    ensures
        r == classify(source@.subrange(start as int, end as int)),
{
    if spells(source, start, end, "in") {
        Grammar::In
    } else if spells(source, start, end, "in_") {
        Grammar::CoIn
    } else if spells(source, start, end, "out") {
        Grammar::Out
    } else if spells(source, start, end, "out_") {
        Grammar::CoOut
    } else if spells(source, start, end, "open") {
        Grammar::Open
    } else if spells(source, start, end, "open_") {
        Grammar::CoOpen
    } else if spells(source, start, end, "arg") {
        Grammar::Arg
    } else if spells(source, start, end, "call") {
        Grammar::Call
    } else if spells(source, start, end, "create") {
        Grammar::Create
    } else if spells(source, start, end, "deploy") {
        Grammar::Deploy
    } else if spells(source, start, end, "func") {
        Grammar::Func
    } else if spells(source, start, end, "return") {
        Grammar::Return
    } else if spells(source, start, end, "string") {
        Grammar::Str
    } else {
        Grammar::Name
    }
}

/// The first token of `source` at or after `pos`; past the end of the
/// text, the end token.
pub fn scan_at(source: &Vec<char>, pos: usize) -> (t: Token)
    ensures
        t.lexeme(source@) == scan(source@, pos as int),
        t.start <= t.end <= source.len(),
        pos <= source.len() ==> pos <= t.start,
{
    proof {
        if pos <= source.len() {
            lemma_scan_bounds(source@, pos as int);
        }
    }
    let mut start = pos;
    while start < source.len() && blank(source[start])
        invariant
            pos <= start,
            pos <= source.len() ==> start <= source.len(),
            skip_blank(source@, pos as int) == skip_blank(source@, start as int),
        decreases source.len() - start,
    {
        start += 1;
    }
    if start >= source.len() {
        return Token { kind: Grammar::End, start: source.len(), end: source.len() };
    }
    let c = source[start];
    if name_char(c) {
        let mut end = start + 1;
        while end < source.len() && name_char(source[end])
            invariant
                start < end <= source.len(),
                word_end(source@, start as int) == word_end(source@, end as int),
            decreases source.len() - end,
        {
            end += 1;
        }
        Token { kind: classify_word(source, start, end), start, end }
    } else {
        match symbol_of(c) {
            Some(kind) => Token { kind, start, end: start + 1 },
            None => Token { kind: Grammar::Error, start, end: start + 1 },
        }
    }
}

/// The tokens of `source`, up to and including the end token.
pub fn tokenize(source: &Vec<char>) -> (toks: Vec<Token>)
    ensures
        lexemes(source@, toks@) == tokens(source@),
{
    let mut toks: Vec<Token> = Vec::new();
    let mut pos: usize = 0;
    loop
        invariant_except_break
            tokens(source@) == lexemes(source@, toks@) + lex(source@, pos as int),
        invariant
            pos <= source.len(),
        ensures
            lexemes(source@, toks@) == tokens(source@),
        decreases source.len() - pos,
    {
        let t = scan_at(source, pos);
        let ghost before = toks@;
        toks.push(t);
        proof {
            lemma_scan_bounds(source@, pos as int);
            assert(lexemes(source@, toks@) =~= lexemes(source@, before) + seq![t.lexeme(source@)]);
        }
        if t.kind == Grammar::End {
            break ;
        }
        pos = t.end;
    }
    toks
}

/// The lexemes of the tokens `toks` of the text `s`.
pub open spec fn lexemes(s: Seq<char>, toks: Seq<Token>) -> Seq<Lexeme> {
    Seq::new(toks.len(), |i: int| toks[i].lexeme(s))
}

/// A reader that walks through the tokens of a text, one at a time.
pub struct Lexer<'a> {
    text: &'a str,
    source: Vec<char>,
    current: Token,
}

impl<'a> Lexer<'a> {
    #[verifier::type_invariant]
    spec fn well_formed(self) -> bool {
        &&& self.source@ == self.text@
        &&& self.current.start <= self.current.end <= self.source.len()
    }

    /// The text that is read.
    pub closed spec fn text(&self) -> Seq<char> {
        self.text@
    }

    /// The token at which the reader stands.
    pub closed spec fn at(&self) -> Lexeme {
        self.current.lexeme(self.source@)
    }

    /// A reader that stands at the first token of `text`.
    pub fn new(text: &'a str) -> (l: Lexer<'a>)
        ensures
            l.text() == text@,
            l.at() == scan(text@, 0),
    {
        let source = chars_of(text);
        let current = scan_at(&source, 0);
        Lexer { text, source, current }
    }

    /// The kind of the token at which the reader stands.
    pub fn token(&self) -> (kind: Grammar)
        ensures
            kind == self.at().kind,
    {
        self.current.kind
    }

    /// The positions `start..end` of the token at which the reader stands.
    pub fn range(&self) -> (r: (usize, usize))
        ensures
            r.0 == self.at().start,
            r.1 == self.at().end,
    {
        (self.current.start, self.current.end)
    }

    /// The characters of the token at which the reader stands.
    pub fn slice(&self) -> (w: &'a str)
        ensures
            w@ == self.at().text,
    {
        proof {
            use_type_invariant(self);
        }
        self.text.substring_char(self.current.start, self.current.end)
    }

    /// Moves to the next token. At the end of the text the reader stays
    /// where it is.
    pub fn advance(&mut self)
        ensures
            final(self).text() == old(self).text(),
            final(self).at() == scan(old(self).text(), old(self).at().end),
    {
        proof {
            use_type_invariant(&*self);
        }
        let next = scan_at(&self.source, self.current.end);
        self.current = next;
    }
}

impl Grammar {
    /// A reader that stands at the first token of `text`.
    pub fn lexer<'a>(text: &'a str) -> (l: Lexer<'a>)
        ensures
            l.text() == text@,
            l.at() == scan(text@, 0),
    {
        Lexer::new(text)
    }
}

} // verus!
