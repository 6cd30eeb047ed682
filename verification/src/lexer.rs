//! The Pure tokenizer.
//!
//! Lexing follows maximal munch over the token patterns below: at each
//! position the longest match wins, a keyword beats an identifier of the
//! same length, whitespace and comments are skipped, and where no pattern
//! matches the lexer drops the longest prefix that could still have started
//! a token (at least one character) and goes on after it.
//!
//! | token            | pattern                                              |
//! |------------------|------------------------------------------------------|
//! | skipped          | `[ \t\n\f]+`, `//.*`, `/\*([^*]\|\*[^/])*\*/`          |
//! | punctuation      | `{ } [ ] ( ) : ; , . :: \| -> + - * / = == != < <= > >= << >> && \|\| !` |
//! | keywords         | `Class Enum Profile Association extends function let`   |
//! | `Bool`           | `true`, `false`                                      |
//! | `Ident`          | `[a-zA-Z_][a-zA-Z0-9_]*`                             |
//! | `Variable`       | `\$[a-zA-Z_][a-zA-Z0-9_]*`                           |
//! | `StringLit`      | `'([^'\\]\|\\.)*'`                                   |
//! | `Integer`        | `-?[0-9]+` (dropped when it does not fit an `i64`)   |
//! | `Float`          | `-?[0-9]+\.[0-9]+([eE][-+]?[0-9]+)?`                 |
//! | `Decimal`        | `-?[0-9]+(\.[0-9]+)?d`                               |
//! | `Date`           | `%[0-9]{4}-[0-9]{2}-[0-9]{2}(T[0-9]{2}:[0-9]{2}:[0-9]{2}(\.[0-9]+)?([+-][0-9]{4}\|Z)?)?` |
//! | `SectionHeader`  | `###[a-zA-Z_0-9]+`                                   |
//! | `IslandOpen`     | `#>` up to (not including) the next `}#`             |
//! | `IslandExtendedOpen` | `#[a-zA-Z]+\{`                                   |
//! | `IslandClose`    | `}#`                                                 |
use vstd::prelude::*;

use crate::ast::SourceInfo;
use vstd::string::*;
use vstd::utf8::*;

verus! {

// ───────────────────────────── tokens ─────────────────────────────

/// The kind of a token, without its payload.
#[derive(Debug, Clone, Copy, PartialEq, Eq, Structural)]
pub enum TokenKind {
    LBrace,
    RBrace,
    LBracket,
    RBracket,
    LParen,
    RParen,
    Colon,
    Semi,
    Comma,
    Dot,
    PathSep,
    Pipe,
    Arrow,
    Plus,
    Minus,
    Star,
    Slash,
    Eq,
    EqEq,
    NotEq,
    Lt,
    Lte,
    Gt,
    Gte,
    LDoubleAngle,
    RDoubleAngle,
    And,
    Or,
    Bang,
    KeywordClass,
    KeywordEnum,
    KeywordProfile,
    KeywordAssociation,
    KeywordExtends,
    KeywordFunction,
    KeywordLet,
    Bool,
    Ident,
    Variable,
    StringLit,
    Integer,
    Float,
    Decimal,
    Date,
    SectionHeader,
    IslandOpen,
    IslandExtendedOpen,
    IslandClose,
}

/// A token of the Pure language. Float literals keep their text.
#[derive(Debug, Clone, PartialEq)]
pub enum Token {
    LBrace,
    RBrace,
    LBracket,
    RBracket,
    LParen,
    RParen,
    Colon,
    Semi,
    Comma,
    Dot,
    PathSep,
    Pipe,
    Arrow,
    Plus,
    Minus,
    Star,
    Slash,
    Eq,
    EqEq,
    NotEq,
    Lt,
    Lte,
    Gt,
    Gte,
    LDoubleAngle,
    RDoubleAngle,
    And,
    Or,
    Bang,
    KeywordClass,
    KeywordEnum,
    KeywordProfile,
    KeywordAssociation,
    KeywordExtends,
    KeywordFunction,
    KeywordLet,
    Bool(bool),
    Ident(String),
    Variable(String),
    StringLit(String),
    Integer(i64),
    Float(String),
    Decimal(String),
    Date(String),
    SectionHeader(String),
    IslandOpen(String),
    IslandExtendedOpen(String),
    IslandClose,
}

/// Kinds whose token carries text.
pub open spec fn has_text(k: TokenKind) -> bool {
    match k {
        TokenKind::Ident | TokenKind::Variable | TokenKind::StringLit | TokenKind::Float
        | TokenKind::Decimal | TokenKind::Date | TokenKind::SectionHeader
        | TokenKind::IslandOpen | TokenKind::IslandExtendedOpen => true,
        _ => false,
    }
}

impl Token {
    /// The kind of this token.
    pub open spec fn spec_kind(&self) -> TokenKind {
        match self {
            Token::LBrace => TokenKind::LBrace,
            Token::RBrace => TokenKind::RBrace,
            Token::LBracket => TokenKind::LBracket,
            Token::RBracket => TokenKind::RBracket,
            Token::LParen => TokenKind::LParen,
            Token::RParen => TokenKind::RParen,
            Token::Colon => TokenKind::Colon,
            Token::Semi => TokenKind::Semi,
            Token::Comma => TokenKind::Comma,
            Token::Dot => TokenKind::Dot,
            Token::PathSep => TokenKind::PathSep,
            Token::Pipe => TokenKind::Pipe,
            Token::Arrow => TokenKind::Arrow,
            Token::Plus => TokenKind::Plus,
            Token::Minus => TokenKind::Minus,
            Token::Star => TokenKind::Star,
            Token::Slash => TokenKind::Slash,
            Token::Eq => TokenKind::Eq,
            Token::EqEq => TokenKind::EqEq,
            Token::NotEq => TokenKind::NotEq,
            Token::Lt => TokenKind::Lt,
            Token::Lte => TokenKind::Lte,
            Token::Gt => TokenKind::Gt,
            Token::Gte => TokenKind::Gte,
            Token::LDoubleAngle => TokenKind::LDoubleAngle,
            Token::RDoubleAngle => TokenKind::RDoubleAngle,
            Token::And => TokenKind::And,
            Token::Or => TokenKind::Or,
            Token::Bang => TokenKind::Bang,
            Token::KeywordClass => TokenKind::KeywordClass,
            Token::KeywordEnum => TokenKind::KeywordEnum,
            Token::KeywordProfile => TokenKind::KeywordProfile,
            Token::KeywordAssociation => TokenKind::KeywordAssociation,
            Token::KeywordExtends => TokenKind::KeywordExtends,
            Token::KeywordFunction => TokenKind::KeywordFunction,
            Token::KeywordLet => TokenKind::KeywordLet,
            Token::Bool(_) => TokenKind::Bool,
            Token::Ident(_) => TokenKind::Ident,
            Token::Variable(_) => TokenKind::Variable,
            Token::StringLit(_) => TokenKind::StringLit,
            Token::Integer(_) => TokenKind::Integer,
            Token::Float(_) => TokenKind::Float,
            Token::Decimal(_) => TokenKind::Decimal,
            Token::Date(_) => TokenKind::Date,
            Token::SectionHeader(_) => TokenKind::SectionHeader,
            Token::IslandOpen(_) => TokenKind::IslandOpen,
            Token::IslandExtendedOpen(_) => TokenKind::IslandExtendedOpen,
            Token::IslandClose => TokenKind::IslandClose,
        }
    }

    /// The text a token carries (empty for tokens without text).
    pub open spec fn text(&self) -> Seq<char> {
        match self {
            Token::Ident(s) => s@,
            Token::Variable(s) => s@,
            Token::StringLit(s) => s@,
            Token::Float(s) => s@,
            Token::Decimal(s) => s@,
            Token::Date(s) => s@,
            Token::SectionHeader(s) => s@,
            Token::IslandOpen(s) => s@,
            Token::IslandExtendedOpen(s) => s@,
            _ => Seq::empty(),
        }
    }

    /// The kind of this token.
    #[verifier::when_used_as_spec(spec_kind)]
    pub fn kind(&self) -> (k: TokenKind)
        ensures
            k == self.spec_kind(),
    {
        match self {
            Token::LBrace => TokenKind::LBrace,
            Token::RBrace => TokenKind::RBrace,
            Token::LBracket => TokenKind::LBracket,
            Token::RBracket => TokenKind::RBracket,
            Token::LParen => TokenKind::LParen,
            Token::RParen => TokenKind::RParen,
            Token::Colon => TokenKind::Colon,
            Token::Semi => TokenKind::Semi,
            Token::Comma => TokenKind::Comma,
            Token::Dot => TokenKind::Dot,
            Token::PathSep => TokenKind::PathSep,
            Token::Pipe => TokenKind::Pipe,
            Token::Arrow => TokenKind::Arrow,
            Token::Plus => TokenKind::Plus,
            Token::Minus => TokenKind::Minus,
            Token::Star => TokenKind::Star,
            Token::Slash => TokenKind::Slash,
            Token::Eq => TokenKind::Eq,
            Token::EqEq => TokenKind::EqEq,
            Token::NotEq => TokenKind::NotEq,
            Token::Lt => TokenKind::Lt,
            Token::Lte => TokenKind::Lte,
            Token::Gt => TokenKind::Gt,
            Token::Gte => TokenKind::Gte,
            Token::LDoubleAngle => TokenKind::LDoubleAngle,
            Token::RDoubleAngle => TokenKind::RDoubleAngle,
            Token::And => TokenKind::And,
            Token::Or => TokenKind::Or,
            Token::Bang => TokenKind::Bang,
            Token::KeywordClass => TokenKind::KeywordClass,
            Token::KeywordEnum => TokenKind::KeywordEnum,
            Token::KeywordProfile => TokenKind::KeywordProfile,
            Token::KeywordAssociation => TokenKind::KeywordAssociation,
            Token::KeywordExtends => TokenKind::KeywordExtends,
            Token::KeywordFunction => TokenKind::KeywordFunction,
            Token::KeywordLet => TokenKind::KeywordLet,
            Token::Bool(_) => TokenKind::Bool,
            Token::Ident(_) => TokenKind::Ident,
            Token::Variable(_) => TokenKind::Variable,
            Token::StringLit(_) => TokenKind::StringLit,
            Token::Integer(_) => TokenKind::Integer,
            Token::Float(_) => TokenKind::Float,
            Token::Decimal(_) => TokenKind::Decimal,
            Token::Date(_) => TokenKind::Date,
            Token::SectionHeader(_) => TokenKind::SectionHeader,
            Token::IslandOpen(_) => TokenKind::IslandOpen,
            Token::IslandExtendedOpen(_) => TokenKind::IslandExtendedOpen,
            Token::IslandClose => TokenKind::IslandClose,
        }
    }

    /// A copy of this token.
    pub fn duplicate(&self) -> (r: Token)
        ensures
            r == *self,
    {
        match self {
            Token::Bool(b) => Token::Bool(*b),
            Token::Ident(s) => Token::Ident(s.clone()),
            Token::Variable(s) => Token::Variable(s.clone()),
            Token::StringLit(s) => Token::StringLit(s.clone()),
            Token::Integer(v) => Token::Integer(*v),
            Token::Float(s) => Token::Float(s.clone()),
            Token::Decimal(s) => Token::Decimal(s.clone()),
            Token::Date(s) => Token::Date(s.clone()),
            Token::SectionHeader(s) => Token::SectionHeader(s.clone()),
            Token::IslandOpen(s) => Token::IslandOpen(s.clone()),
            Token::IslandExtendedOpen(s) => Token::IslandExtendedOpen(s.clone()),
            Token::LBrace => Token::LBrace,
            Token::RBrace => Token::RBrace,
            Token::LBracket => Token::LBracket,
            Token::RBracket => Token::RBracket,
            Token::LParen => Token::LParen,
            Token::RParen => Token::RParen,
            Token::Colon => Token::Colon,
            Token::Semi => Token::Semi,
            Token::Comma => Token::Comma,
            Token::Dot => Token::Dot,
            Token::PathSep => Token::PathSep,
            Token::Pipe => Token::Pipe,
            Token::Arrow => Token::Arrow,
            Token::Plus => Token::Plus,
            Token::Minus => Token::Minus,
            Token::Star => Token::Star,
            Token::Slash => Token::Slash,
            Token::Eq => Token::Eq,
            Token::EqEq => Token::EqEq,
            Token::NotEq => Token::NotEq,
            Token::Lt => Token::Lt,
            Token::Lte => Token::Lte,
            Token::Gt => Token::Gt,
            Token::Gte => Token::Gte,
            Token::LDoubleAngle => Token::LDoubleAngle,
            Token::RDoubleAngle => Token::RDoubleAngle,
            Token::And => Token::And,
            Token::Or => Token::Or,
            Token::Bang => Token::Bang,
            Token::KeywordClass => Token::KeywordClass,
            Token::KeywordEnum => Token::KeywordEnum,
            Token::KeywordProfile => Token::KeywordProfile,
            Token::KeywordAssociation => Token::KeywordAssociation,
            Token::KeywordExtends => Token::KeywordExtends,
            Token::KeywordFunction => Token::KeywordFunction,
            Token::KeywordLet => Token::KeywordLet,
            Token::IslandClose => Token::IslandClose,
        }
    }

    /// The name an identifier-like token reads as: an identifier's text or
    /// a keyword's spelling (`Class`, `Enum`, `Profile`, `Association`,
    /// `extends`, `function`, `let`); `None` for any other token.
    pub open spec fn ident_text(&self) -> Option<Seq<char>> {
        match self {
            Token::Ident(s) => Some(s@),
            Token::KeywordClass => Some(seq!['C', 'l', 'a', 's', 's']),
            Token::KeywordEnum => Some(seq!['E', 'n', 'u', 'm']),
            Token::KeywordProfile => Some(seq!['P', 'r', 'o', 'f', 'i', 'l', 'e']),
            Token::KeywordAssociation => Some(
                seq!['A', 's', 's', 'o', 'c', 'i', 'a', 't', 'i', 'o', 'n'],
            ),
            Token::KeywordExtends => Some(seq!['e', 'x', 't', 'e', 'n', 'd', 's']),
            Token::KeywordFunction => Some(seq!['f', 'u', 'n', 'c', 't', 'i', 'o', 'n']),
            Token::KeywordLet => Some(seq!['l', 'e', 't']),
            _ => None,
        }
    }

    /// The name an identifier-like token reads as (see `ident_text`).
    pub fn as_ident(&self) -> (r: Option<String>)
        ensures
            r.is_some() == self.ident_text().is_some(),
            r.is_some() ==> r.unwrap()@ == self.ident_text().unwrap(),
    {
        match self {
            Token::Ident(id) => Some(id.clone()),
            Token::KeywordClass => Some(string_of(vec!['C', 'l', 'a', 's', 's'])),
            Token::KeywordEnum => Some(string_of(vec!['E', 'n', 'u', 'm'])),
            Token::KeywordProfile => Some(string_of(vec!['P', 'r', 'o', 'f', 'i', 'l', 'e'])),
            Token::KeywordAssociation => Some(
                string_of(vec!['A', 's', 's', 'o', 'c', 'i', 'a', 't', 'i', 'o', 'n']),
            ),
            Token::KeywordExtends => Some(string_of(vec!['e', 'x', 't', 'e', 'n', 'd', 's'])),
            Token::KeywordFunction => Some(
                string_of(vec!['f', 'u', 'n', 'c', 't', 'i', 'o', 'n']),
            ),
            Token::KeywordLet => Some(string_of(vec!['l', 'e', 't'])),
            _ => None,
        }
    }
}

/// The string made of the given characters.
pub fn string_of(cs: Vec<char>) -> (r: String)
    ensures
        r@ == cs@,
{
    let mut r = String::new();
    let mut k: usize = 0;
    while k < cs.len()
        invariant
            k <= cs.len(),
            r@ == cs@.take(k as int),
        decreases cs.len() - k,
    {
        let piece = char_string(cs[k]);
        r.append(piece.as_str());
        assert(r@ =~= cs@.take(k + 1));
        k = k + 1;
    }
    assert(r@ =~= cs@);
    r
}

/// The one-character string `c`.
#[verifier::external_body]
fn char_string(c: char) -> (r: String)
    ensures
        r@ == seq![c],
{
    c.to_string()
}

// ───────────────────────────── character classes ─────────────────────────────

/// Character classes the token patterns are made of.
#[derive(Debug, Clone, Copy, PartialEq, Eq, Structural)]
pub enum CharClass {
    /// `[0-9]`
    Digit,
    /// `[a-zA-Z]`
    Alpha,
    /// `[a-zA-Z0-9_]`
    IdentChar,
    /// `[ \t\n\f]`
    Space,
    /// any character but `\n`
    LineChar,
}

pub open spec fn is_digit(c: char) -> bool {
    '0' <= c && c <= '9'
}

pub open spec fn is_alpha(c: char) -> bool {
    ('a' <= c && c <= 'z') || ('A' <= c && c <= 'Z')
}

pub open spec fn is_ident_start(c: char) -> bool {
    is_alpha(c) || c == '_'
}

pub open spec fn in_class(k: CharClass, c: char) -> bool {
    match k {
        CharClass::Digit => is_digit(c),
        CharClass::Alpha => is_alpha(c),
        CharClass::IdentChar => is_alpha(c) || is_digit(c) || c == '_',
        CharClass::Space => c == ' ' || c == '\t' || c == '\n' || c == '\x0c',
        CharClass::LineChar => c != '\n',
    }
}

fn class_has(k: CharClass, c: char) -> (b: bool)
    ensures
        b == in_class(k, c),
{
    match k {
        CharClass::Digit => c >= '0' && c <= '9',
        CharClass::Alpha => (c >= 'a' && c <= 'z') || (c >= 'A' && c <= 'Z'),
        CharClass::IdentChar => (c >= 'a' && c <= 'z') || (c >= 'A' && c <= 'Z') || (c >= '0'
            && c <= '9') || c == '_',
        CharClass::Space => c == ' ' || c == '\t' || c == '\n' || c == '\x0c',
        CharClass::LineChar => c != '\n',
    }
}

/// `s[j] == c`, false outside `s`.
pub open spec fn at(s: Seq<char>, j: int, c: char) -> bool {
    0 <= j < s.len() && s[j] == c
}

/// `s[j]` is in class `k`, false outside `s`.
pub open spec fn at_class(s: Seq<char>, j: int, k: CharClass) -> bool {
    0 <= j < s.len() && in_class(k, s[j])
}

/// The number of consecutive characters of class `k` from `i` on.
pub open spec fn run(s: Seq<char>, i: int, k: CharClass) -> int
    decreases s.len() - i,
{
    if 0 <= i < s.len() && in_class(k, s[i]) {
        1 + run(s, i + 1, k)
    } else {
        0
    }
}

proof fn lemma_run_bounds(s: Seq<char>, i: int, k: CharClass)
    requires
        0 <= i <= s.len(),
    ensures
        0 <= run(s, i, k) <= s.len() - i,
        forall|j: int| i <= j < i + run(s, i, k) ==> in_class(k, #[trigger] s[j]),
    decreases s.len() - i,
{
    if i < s.len() && in_class(k, s[i]) {
        lemma_run_bounds(s, i + 1, k);
    }
}

proof fn lemma_run_first(s: Seq<char>, i: int, k: CharClass)
    requires
        0 <= i < s.len(),
        in_class(k, s[i]),
    ensures
        run(s, i, k) == 1 + run(s, i + 1, k),
        run(s, i, k) >= 1,
{
    lemma_run_bounds(s, i + 1, k);
}

proof fn lemma_shape_prefix_ge(s: Seq<char>, i: int, shape: Seq<char>, k: int)
    requires
        0 <= k <= shape.len(),
    ensures
        k <= shape_prefix(s, i, shape, k) <= shape.len(),
    decreases shape.len() - k,
{
    if 0 <= k < shape.len() && 0 <= i + k < s.len() && shape_at(shape, k, s[i + k]) {
        lemma_shape_prefix_ge(s, i, shape, k + 1);
    }
}

/// `s[i + off]`, or `None` past the end.
fn peek(cs: &Vec<char>, i: usize, off: usize) -> (r: Option<char>)
    requires
        i <= cs.len(),
    ensures
        r.is_some() == (off < cs.len() - i),
        r.is_some() ==> r.unwrap() == cs@[i + off],
{
    if off < cs.len() - i {
        Some(cs[i + off])
    } else {
        None
    }
}

fn peek_is(cs: &Vec<char>, i: usize, off: usize, c: char) -> (b: bool)
    requires
        i <= cs.len(),
    ensures
        b == at(cs@, i + off, c),
{
    match peek(cs, i, off) {
        Some(d) => d == c,
        None => false,
    }
}

fn peek_class(cs: &Vec<char>, i: usize, off: usize, k: CharClass) -> (b: bool)
    requires
        i <= cs.len(),
    ensures
        b == at_class(cs@, i + off, k),
{
    match peek(cs, i, off) {
        Some(d) => class_has(k, d),
        None => false,
    }
}

/// `run(s, i + off, k)`, computed.
fn run_exec(cs: &Vec<char>, i: usize, off: usize, k: CharClass) -> (n: usize)
    requires
        i <= cs.len(),
    ensures
        n == run(cs@, i + off, k),
        off < cs.len() - i ==> n <= cs.len() - i - off,
        off >= cs.len() - i ==> n == 0,
{
    if off >= cs.len() - i {
        return 0;
    }
    let start = i + off;
    let mut j = start;
    proof {
        lemma_run_bounds(cs@, start as int, k);
    }
    while j < cs.len() && class_has(k, cs[j])
        invariant
            start <= j <= cs.len(),
            run(cs@, start as int, k) == (j - start) + run(cs@, j as int, k),
        decreases cs.len() - j,
    {
        j = j + 1;
    }
    j - start
}

// ───────────────────────────── scanners ─────────────────────────────

/// End (exclusive) of a block comment body starting at `j`: the position
/// after the closing `*/`, read as `([^*]|\*[^/])*\*/`.
pub open spec fn block_end(s: Seq<char>, j: int) -> Option<int>
    decreases s.len() - j,
{
    if j < 0 || j >= s.len() {
        None
    } else if s[j] != '*' {
        block_end(s, j + 1)
    } else if j + 1 >= s.len() {
        None
    } else if s[j + 1] == '/' {
        Some(j + 2)
    } else {
        block_end(s, j + 2)
    }
}

/// Position of the first `}#` at or after `j`.
pub open spec fn find_close(s: Seq<char>, j: int) -> Option<int>
    decreases s.len() - j,
{
    if j < 0 || j + 1 >= s.len() {
        None
    } else if s[j] == '}' && s[j + 1] == '#' {
        Some(j)
    } else {
        find_close(s, j + 1)
    }
}

/// Scanning the body of a string literal from `j`: `Ok(e)` when it closes
/// with the quote at `e - 1`, `Err(d)` when no pattern can go on at `d`.
pub open spec fn string_end(s: Seq<char>, j: int) -> Result<int, int>
    decreases s.len() - j,
{
    if j < 0 || j >= s.len() {
        Err(j)
    } else if s[j] == '\'' {
        Ok(j + 1)
    } else if s[j] == '\\' {
        if j + 1 < s.len() && s[j + 1] != '\n' {
            string_end(s, j + 2)
        } else {
            Err(j + 1)
        }
    } else {
        string_end(s, j + 1)
    }
}

/// Digit or literal positions of a fixed-shape part of a date.
pub open spec fn shape_at(shape: Seq<char>, k: int, c: char) -> bool {
    if shape[k] == '9' {
        is_digit(c)
    } else {
        c == shape[k]
    }
}

/// How many leading positions of `shape` (where `9` stands for a digit)
/// match from `i + k` on, counting from `k`.
pub open spec fn shape_prefix(s: Seq<char>, i: int, shape: Seq<char>, k: int) -> int
    decreases shape.len() - k,
{
    if 0 <= k < shape.len() && 0 <= i + k < s.len() && shape_at(shape, k, s[i + k]) {
        shape_prefix(s, i, shape, k + 1)
    } else {
        k
    }
}

/// `%dddd-dd-dd`
pub open spec fn date_core() -> Seq<char> {
    seq!['%', '9', '9', '9', '9', '-', '9', '9', '-', '9', '9']
}

/// `Tdd:dd:dd`
pub open spec fn date_time() -> Seq<char> {
    seq!['T', '9', '9', ':', '9', '9', ':', '9', '9']
}

/// `+dddd` or `-dddd`
pub open spec fn date_zone() -> Seq<char> {
    seq!['+', '9', '9', '9', '9']
}

pub open spec fn date_zone_minus() -> Seq<char> {
    seq!['-', '9', '9', '9', '9']
}

/// Length of the optional `(\.[0-9]+)?` at `f`.
pub open spec fn date_fraction(s: Seq<char>, f: int) -> int {
    if at(s, f, '.') && at_class(s, f + 1, CharClass::Digit) {
        1 + run(s, f + 1, CharClass::Digit)
    } else {
        0
    }
}

/// Length of the optional zone `([+-][0-9]{4}|Z)?` at `z`.
pub open spec fn date_zone_len(s: Seq<char>, z: int) -> int {
    if shape_prefix(s, z, date_zone(), 0) == 5 || shape_prefix(s, z, date_zone_minus(), 0) == 5 {
        5
    } else if at(s, z, 'Z') {
        1
    } else {
        0
    }
}

/// Length of the longest date literal at `i` (which holds a full core).
pub open spec fn date_len(s: Seq<char>, i: int) -> int {
    if shape_prefix(s, i + 11, date_time(), 0) == 9 {
        let f = i + 20;
        let z = f + date_fraction(s, f);
        z + date_zone_len(s, z) - i
    } else {
        11
    }
}

/// Value of the digits `s[a..b]`.
pub open spec fn digits_value(s: Seq<char>, a: int, b: int) -> int
    decreases b - a,
{
    if b <= a {
        0
    } else {
        digits_value(s, a, b - 1) * 10 + (s[b - 1] as int - '0' as int)
    }
}

/// Value of `-?[0-9]+` written at `s[a..b]`.
pub open spec fn int_value(s: Seq<char>, a: int, b: int) -> int {
    if at(s, a, '-') {
        -digits_value(s, a + 1, b)
    } else {
        digits_value(s, a, b)
    }
}

/// The `i64` written at `s[a..b]`, if it fits.
pub open spec fn parse_int(s: Seq<char>, a: int, b: int) -> Option<i64> {
    let v = int_value(s, a, b);
    if i64::MIN <= v <= i64::MAX {
        Some(v as i64)
    } else {
        None
    }
}

/// End of the optional exponent `([eE][-+]?[0-9]+)?` at `r`.
pub open spec fn float_end(s: Seq<char>, r: int) -> int {
    if at(s, r, 'e') || at(s, r, 'E') {
        let t = if at(s, r + 1, '+') || at(s, r + 1, '-') {
            r + 2
        } else {
            r + 1
        };
        if run(s, t, CharClass::Digit) > 0 {
            t + run(s, t, CharClass::Digit)
        } else {
            r
        }
    } else {
        r
    }
}

/// What the lexer does at one position.
pub enum Scan {
    /// Skip this many characters (whitespace or a comment).
    Skip(int),
    /// A token: its kind, the text it carries (`s[text_start..text_end]`),
    /// its length and its value (integer value, or 1/0 for a boolean).
    Tok(TokenKind, int, int, int, int),
    /// Drop this many characters: nothing matches here.
    Fail(int),
}

/// Numeric literal at `i` (a digit, or `-` then a digit).
pub open spec fn scan_number(s: Seq<char>, i: int) -> Scan {
    let p = if s[i] == '-' {
        i + 1
    } else {
        i
    };
    let q = p + run(s, p, CharClass::Digit);
    let d2 = if at(s, q, '.') {
        run(s, q + 1, CharClass::Digit)
    } else {
        0
    };
    let r = q + 1 + d2;
    if at(s, q, 'd') {
        Scan::Tok(TokenKind::Decimal, i, q, q + 1 - i, 0)
    } else if d2 > 0 && at(s, r, 'd') {
        Scan::Tok(TokenKind::Decimal, i, r, r + 1 - i, 0)
    } else if d2 > 0 {
        Scan::Tok(TokenKind::Float, i, float_end(s, r), float_end(s, r) - i, 0)
    } else {
        match parse_int(s, i, q) {
            Some(v) => Scan::Tok(TokenKind::Integer, i, q, q - i, v as int),
            None => Scan::Fail(q - i),
        }
    }
}

/// The keyword (or boolean) a word spells, if any.
pub open spec fn keyword_kind(w: Seq<char>) -> Option<TokenKind> {
    if w == seq!['C', 'l', 'a', 's', 's'] {
        Some(TokenKind::KeywordClass)
    } else if w == seq!['E', 'n', 'u', 'm'] {
        Some(TokenKind::KeywordEnum)
    } else if w == seq!['P', 'r', 'o', 'f', 'i', 'l', 'e'] {
        Some(TokenKind::KeywordProfile)
    } else if w == seq!['A', 's', 's', 'o', 'c', 'i', 'a', 't', 'i', 'o', 'n'] {
        Some(TokenKind::KeywordAssociation)
    } else if w == seq!['e', 'x', 't', 'e', 'n', 'd', 's'] {
        Some(TokenKind::KeywordExtends)
    } else if w == seq!['f', 'u', 'n', 'c', 't', 'i', 'o', 'n'] {
        Some(TokenKind::KeywordFunction)
    } else if w == seq!['l', 'e', 't'] {
        Some(TokenKind::KeywordLet)
    } else if w == seq!['t', 'r', 'u', 'e'] || w == seq!['f', 'a', 'l', 's', 'e'] {
        Some(TokenKind::Bool)
    } else {
        None
    }
}

/// A word at `i` (which starts with `[a-zA-Z_]`).
pub open spec fn scan_word(s: Seq<char>, i: int) -> Scan {
    let n = run(s, i, CharClass::IdentChar);
    let w = s.subrange(i, i + n);
    match keyword_kind(w) {
        Some(k) => Scan::Tok(
            k,
            i,
            i + n,
            n,
            if w == seq!['t', 'r', 'u', 'e'] {
                1
            } else {
                0
            },
        ),
        None => Scan::Tok(TokenKind::Ident, i, i + n, n, 0),
    }
}

/// A token made of one or two punctuation characters at `i`, if any.
pub open spec fn scan_punct(s: Seq<char>, i: int) -> Option<(TokenKind, int)> {
    let c = s[i];
    if c == '{' {
        Some((TokenKind::LBrace, 1))
    } else if c == '}' {
        if at(s, i + 1, '#') {
            Some((TokenKind::IslandClose, 2))
        } else {
            Some((TokenKind::RBrace, 1))
        }
    } else if c == '[' {
        Some((TokenKind::LBracket, 1))
    } else if c == ']' {
        Some((TokenKind::RBracket, 1))
    } else if c == '(' {
        Some((TokenKind::LParen, 1))
    } else if c == ')' {
        Some((TokenKind::RParen, 1))
    } else if c == ':' {
        if at(s, i + 1, ':') {
            Some((TokenKind::PathSep, 2))
        } else {
            Some((TokenKind::Colon, 1))
        }
    } else if c == ';' {
        Some((TokenKind::Semi, 1))
    } else if c == ',' {
        Some((TokenKind::Comma, 1))
    } else if c == '.' {
        Some((TokenKind::Dot, 1))
    } else if c == '|' {
        if at(s, i + 1, '|') {
            Some((TokenKind::Or, 2))
        } else {
            Some((TokenKind::Pipe, 1))
        }
    } else if c == '-' {
        if at(s, i + 1, '>') {
            Some((TokenKind::Arrow, 2))
        } else {
            Some((TokenKind::Minus, 1))
        }
    } else if c == '+' {
        Some((TokenKind::Plus, 1))
    } else if c == '*' {
        Some((TokenKind::Star, 1))
    } else if c == '=' {
        if at(s, i + 1, '=') {
            Some((TokenKind::EqEq, 2))
        } else {
            Some((TokenKind::Eq, 1))
        }
    } else if c == '!' {
        if at(s, i + 1, '=') {
            Some((TokenKind::NotEq, 2))
        } else {
            Some((TokenKind::Bang, 1))
        }
    } else if c == '<' {
        if at(s, i + 1, '=') {
            Some((TokenKind::Lte, 2))
        } else if at(s, i + 1, '<') {
            Some((TokenKind::LDoubleAngle, 2))
        } else {
            Some((TokenKind::Lt, 1))
        }
    } else if c == '>' {
        if at(s, i + 1, '=') {
            Some((TokenKind::Gte, 2))
        } else if at(s, i + 1, '>') {
            Some((TokenKind::RDoubleAngle, 2))
        } else {
            Some((TokenKind::Gt, 1))
        }
    } else if c == '&' && at(s, i + 1, '&') {
        Some((TokenKind::And, 2))
    } else {
        None
    }
}

/// `#`-led tokens at `i`: islands and section headers.
pub open spec fn scan_hash(s: Seq<char>, i: int) -> Scan {
    if at(s, i + 1, '>') {
        match find_close(s, i + 2) {
            Some(p) => Scan::Tok(TokenKind::IslandOpen, i + 2, p, p - i, 0),
            None => Scan::Fail(2),
        }
    } else if at(s, i + 1, '#') {
        if at(s, i + 2, '#') {
            let r = run(s, i + 3, CharClass::IdentChar);
            if r > 0 {
                Scan::Tok(TokenKind::SectionHeader, i + 3, i + 3 + r, 3 + r, 0)
            } else {
                Scan::Fail(3)
            }
        } else {
            Scan::Fail(2)
        }
    } else {
        let k = run(s, i + 1, CharClass::Alpha);
        if k > 0 && at(s, i + 1 + k, '{') {
            Scan::Tok(TokenKind::IslandExtendedOpen, i + 1, i + 1 + k, k + 2, 0)
        } else {
            Scan::Fail(1 + k)
        }
    }
}

/// What the lexer does at position `i` of `s`.
pub open spec fn scan(s: Seq<char>, i: int) -> Scan {
    let c = s[i];
    if in_class(CharClass::Space, c) {
        Scan::Skip(run(s, i, CharClass::Space))
    } else if c == '/' && at(s, i + 1, '/') {
        Scan::Skip(2 + run(s, i + 2, CharClass::LineChar))
    } else if c == '/' && at(s, i + 1, '*') && block_end(s, i + 2).is_some() {
        Scan::Skip(block_end(s, i + 2).unwrap() - i)
    } else if c == '/' {
        Scan::Tok(TokenKind::Slash, i, i, 1, 0)
    } else if is_digit(c) || (c == '-' && at_class(s, i + 1, CharClass::Digit)) {
        scan_number(s, i)
    } else if is_ident_start(c) {
        scan_word(s, i)
    } else if c == '$' {
        if at(s, i + 1, '_') || at_class(s, i + 1, CharClass::Alpha) {
            let n = run(s, i + 1, CharClass::IdentChar);
            Scan::Tok(TokenKind::Variable, i + 1, i + 1 + n, n + 1, 0)
        } else {
            Scan::Fail(1)
        }
    } else if c == '\'' {
        match string_end(s, i + 1) {
            Ok(e) => Scan::Tok(TokenKind::StringLit, i + 1, e - 1, e - i, 0),
            Err(d) => Scan::Fail(d - i),
        }
    } else if c == '%' {
        let m = shape_prefix(s, i, date_core(), 0);
        if m == 11 {
            Scan::Tok(TokenKind::Date, i + 1, i + date_len(s, i), date_len(s, i), 0)
        } else {
            Scan::Fail(m)
        }
    } else if c == '#' {
        scan_hash(s, i)
    } else {
        match scan_punct(s, i) {
            Some((k, n)) => Scan::Tok(k, i, i, n, 0),
            None => Scan::Fail(1),
        }
    }
}

/// The length a scan step covers.
pub open spec fn scan_len(sc: Scan) -> int {
    match sc {
        Scan::Skip(n) => n,
        Scan::Tok(_, _, _, n, _) => n,
        Scan::Fail(n) => n,
    }
}

/// A token found in a character sequence, by position.
pub struct Lexeme {
    pub kind: TokenKind,
    pub text_start: int,
    pub text_end: int,
    pub start: int,
    pub end: int,
    pub value: int,
}

/// The tokens of `s` from position `i` on.
pub open spec fn lexemes(s: Seq<char>, i: int) -> Seq<Lexeme>
    decreases s.len() - i,
{
    if i < 0 || i >= s.len() {
        Seq::empty()
    } else {
        let sc = scan(s, i);
        let n = scan_len(sc);
        if n <= 0 || i + n > s.len() {
            Seq::empty()
        } else {
            match sc {
                Scan::Tok(k, a, b, _m, v) => seq![
                    Lexeme { kind: k, text_start: a, text_end: b, start: i, end: i + n, value: v },
                ] + lexemes(s, i + n),
                _ => lexemes(s, i + n),
            }
        }
    }
}

/// `t` is the token that lexeme `l` of `s` stands for.
pub open spec fn denotes(t: Token, s: Seq<char>, l: Lexeme) -> bool {
    &&& t.spec_kind() == l.kind
    &&& t.text() == (if has_text(l.kind) {
        s.subrange(l.text_start, l.text_end)
    } else {
        Seq::empty()
    })
    &&& (l.kind == TokenKind::Integer ==> t == Token::Integer(l.value as i64))
    &&& (l.kind == TokenKind::Bool ==> t == Token::Bool(l.value != 0))
}


// ───────────────────────────── executable scanners ─────────────────────────────

/// A scan step as computed.
pub enum ScanOut {
    Skip(usize),
    Tok(TokenKind, usize, usize, usize, i64),
    Fail(usize),
}

pub open spec fn out_view(o: ScanOut) -> Scan {
    match o {
        ScanOut::Skip(n) => Scan::Skip(n as int),
        ScanOut::Tok(k, a, b, n, v) => Scan::Tok(k, a as int, b as int, n as int, v as int),
        ScanOut::Fail(n) => Scan::Fail(n as int),
    }
}

fn block_end_exec(cs: &Vec<char>, j0: usize) -> (r: Option<usize>)
    requires
        j0 <= cs.len(),
    ensures
        r.is_some() == block_end(cs@, j0 as int).is_some(),
        r.is_some() ==> r.unwrap() == block_end(cs@, j0 as int).unwrap() && r.unwrap()
            <= cs.len() && j0 < r.unwrap(),
{
    let mut j = j0;
    while j < cs.len()
        invariant
            j0 <= j <= cs.len(),
            block_end(cs@, j0 as int) == block_end(cs@, j as int),
        decreases cs.len() - j,
    {
        if cs[j] != '*' {
            j = j + 1;
        } else if j + 1 >= cs.len() {
            return None;
        } else if cs[j + 1] == '/' {
            return Some(j + 2);
        } else {
            j = j + 2;
        }
    }
    None
}

fn find_close_exec(cs: &Vec<char>, j0: usize) -> (r: Option<usize>)
    requires
        j0 <= cs.len(),
    ensures
        r.is_some() == find_close(cs@, j0 as int).is_some(),
        r.is_some() ==> r.unwrap() == find_close(cs@, j0 as int).unwrap() && j0 <= r.unwrap()
            && r.unwrap() + 2 <= cs.len(),
{
    let mut j = j0;
    while j < cs.len() && cs.len() - j >= 2
        invariant
            j0 <= j <= cs.len(),
            find_close(cs@, j0 as int) == find_close(cs@, j as int),
        decreases cs.len() - j,
    {
        if cs[j] == '}' && cs[j + 1] == '#' {
            return Some(j);
        }
        j = j + 1;
    }
    None
}

fn string_end_exec(cs: &Vec<char>, j0: usize) -> (r: Result<usize, usize>)
    requires
        j0 <= cs.len(),
    ensures
        match r {
            Ok(e) => string_end(cs@, j0 as int) == Ok::<int, int>(e as int) && j0 < e <= cs.len(),
            Err(d) => string_end(cs@, j0 as int) == Err::<int, int>(d as int) && j0 <= d
                <= cs.len(),
        },
{
    let mut j = j0;
    while j < cs.len()
        invariant
            j0 <= j <= cs.len(),
            string_end(cs@, j0 as int) == string_end(cs@, j as int),
        decreases cs.len() - j,
    {
        if cs[j] == '\'' {
            return Ok(j + 1);
        } else if cs[j] == '\\' {
            if j + 1 < cs.len() && cs[j + 1] != '\n' {
                j = j + 2;
            } else {
                return Err(j + 1);
            }
        } else {
            j = j + 1;
        }
    }
    Err(j)
}

fn shape_ok_exec(cs: &Vec<char>, i: usize, shape: &Vec<char>, k: usize) -> (b: bool)
    requires
        i <= cs.len(),
        k < shape.len(),
        k < cs.len() - i,
    ensures
        b == shape_at(shape@, k as int, cs@[i + k]),
{
    if shape[k] == '9' {
        class_has(CharClass::Digit, cs[i + k])
    } else {
        cs[i + k] == shape[k]
    }
}

/// `shape_prefix(s, i, shape, 0)`, computed.
fn shape_prefix_exec(cs: &Vec<char>, i: usize, shape: &Vec<char>) -> (m: usize)
    requires
        i <= cs.len(),
    ensures
        m == shape_prefix(cs@, i as int, shape@, 0),
        m <= shape.len(),
        m <= cs.len() - i,
{
    let mut k: usize = 0;
    while k < shape.len() && k < cs.len() - i && shape_ok_exec(cs, i, shape, k)
        invariant
            i <= cs.len(),
            k <= shape.len(),
            k <= cs.len() - i,
            shape_prefix(cs@, i as int, shape@, 0) == shape_prefix(cs@, i as int, shape@, k as int),
        decreases shape.len() - k,
    {
        k = k + 1;
    }
    k
}

proof fn lemma_digits_value_monotone(s: Seq<char>, a: int, b: int, c: int)
    requires
        a <= b <= c,
        forall|j: int| a <= j < c ==> is_digit(#[trigger] s[j]),
    ensures
        0 <= digits_value(s, a, b) <= digits_value(s, a, c),
    decreases c - a,
{
    if c > b {
        lemma_digits_value_monotone(s, a, b, c - 1);
        assert(digits_value(s, a, c) == digits_value(s, a, c - 1) * 10 + (s[c - 1] as int
            - '0' as int));
    } else if b > a {
        lemma_digits_value_monotone(s, a, b - 1, b - 1);
    }
}

/// `parse_int(s, a, b)`, computed.
fn parse_int_exec(cs: &Vec<char>, a: usize, b: usize) -> (r: Option<i64>)
    requires
        a < b <= cs.len(),
        forall|j: int| (if cs@[a as int] == '-' { a + 1 } else { a as int }) <= j < b ==> is_digit(
            #[trigger] cs@[j],
        ),
    ensures
        r == parse_int(cs@, a as int, b as int),
{
    let neg = cs[a] == '-';
    let start = if neg {
        a + 1
    } else {
        a
    };
    let limit: u64 = if neg {
        0x8000_0000_0000_0000
    } else {
        0x7fff_ffff_ffff_ffff
    };
    let mut acc: u64 = 0;
    let mut j = start;
    while j < b
        invariant
            start <= j <= b <= cs.len(),
            forall|k: int| start <= k < b ==> is_digit(#[trigger] cs@[k]),
            acc as int == digits_value(cs@, start as int, j as int),
            acc <= limit,
            limit == (if neg { 0x8000_0000_0000_0000u64 } else { 0x7fff_ffff_ffff_ffffu64 }),
            a < b,
            neg == (cs@[a as int] == '-'),
            start == (if neg { a + 1 } else { a as int }),
        decreases b - j,
    {
        let ch = cs[j];
        let d: u64 = (ch as u32 - '0' as u32) as u64;
        assert(d as int == cs@[j as int] as int - '0' as int);
        assert(d <= 9);
        if acc > (limit - d) / 10 {
            proof {
                assert(acc * 10 + d > limit) by (nonlinear_arith)
                    requires
                        acc > (limit - d) / 10,
                        d <= 9,
                        limit >= 9,
                ;
                assert(digits_value(cs@, start as int, j + 1) == acc * 10 + d);
                lemma_digits_value_monotone(cs@, start as int, j + 1, b as int);
                assert(digits_value(cs@, start as int, b as int) > limit);
                assert(at(cs@, a as int, '-') == neg);
                if neg {
                    assert(int_value(cs@, a as int, b as int) < i64::MIN);
                } else {
                    assert(int_value(cs@, a as int, b as int) > i64::MAX);
                }
            }
            return None;
        }
        assert(acc * 10 + d <= limit) by (nonlinear_arith)
            requires
                acc <= (limit - d) / 10,
                d <= 9,
                limit >= 9,
        ;
        acc = acc * 10 + d;
        j = j + 1;
    }
    if neg {
        if acc == 0x8000_0000_0000_0000 {
            Some(i64::MIN)
        } else {
            Some(-(acc as i64))
        }
    } else {
        Some(acc as i64)
    }
}

/// `scan_number(s, i)`, computed.
fn scan_number_exec(cs: &Vec<char>, i: usize) -> (r: ScanOut)
    requires
        i < cs.len(),
        is_digit(cs@[i as int]) || (cs@[i as int] == '-' && at_class(cs@, i + 1, CharClass::Digit)),
    ensures
        out_view(r) == scan_number(cs@, i as int),
        0 < scan_len(out_view(r)) <= cs.len() - i,
{
    let s = Ghost(cs@);
    let p: usize = if cs[i] == '-' {
        i + 1
    } else {
        i
    };
    let d1 = run_exec(cs, p, 0, CharClass::Digit);
    proof {
        lemma_run_bounds(s@, p as int, CharClass::Digit);
    }
    let q = p + d1;
    let d2: usize = if peek_is(cs, q, 0, '.') {
        run_exec(cs, q, 1, CharClass::Digit)
    } else {
        0
    };
    if peek_is(cs, q, 0, 'd') {
        return ScanOut::Tok(TokenKind::Decimal, i, q, q + 1 - i, 0);
    }
    if d2 > 0 {
        let r = q + 1 + d2;
        if peek_is(cs, r, 0, 'd') {
            return ScanOut::Tok(TokenKind::Decimal, i, r, r + 1 - i, 0);
        }
        let mut fe = r;
        if peek_is(cs, r, 0, 'e') || peek_is(cs, r, 0, 'E') {
            let sign = peek_is(cs, r, 1, '+') || peek_is(cs, r, 1, '-');
            let t = if sign {
                r + 2
            } else {
                r + 1
            };
            let d3 = run_exec(cs, t, 0, CharClass::Digit);
            if d3 > 0 {
                fe = t + d3;
            }
        }
        return ScanOut::Tok(TokenKind::Float, i, fe, fe - i, 0);
    }
    proof {
        lemma_run_bounds(s@, p as int, CharClass::Digit);
        lemma_run_first(s@, p as int, CharClass::Digit);
    }
    match parse_int_exec(cs, i, q) {
        Some(v) => ScanOut::Tok(TokenKind::Integer, i, q, q - i, v),
        None => ScanOut::Fail(q - i),
    }
}

/// `s[i..i+n] == lit`, computed.
fn text_eq(cs: &Vec<char>, i: usize, n: usize, lit: &Vec<char>) -> (b: bool)
    requires
        i <= cs.len(),
        n <= cs.len() - i,
    ensures
        b == (cs@.subrange(i as int, (i + n) as int) == lit@),
{
    if n != lit.len() {
        return false;
    }
    let mut k: usize = 0;
    while k < n
        invariant
            i <= cs.len(),
            n <= cs.len() - i,
            n == lit.len(),
            k <= n,
            forall|j: int| 0 <= j < k ==> cs@[i + j] == lit@[j],
        decreases n - k,
    {
        if cs[i + k] != lit[k] {
            assert(cs@.subrange(i as int, (i + n) as int)[k as int] != lit@[k as int]);
            return false;
        }
        k = k + 1;
    }
    assert(cs@.subrange(i as int, (i + n) as int) =~= lit@);
    true
}

/// `keyword_kind(s[i..i+n])`, computed.
fn keyword_kind_exec(cs: &Vec<char>, i: usize, n: usize) -> (r: Option<TokenKind>)
    requires
        i <= cs.len(),
        n <= cs.len() - i,
    ensures
        r == keyword_kind(cs@.subrange(i as int, (i + n) as int)),
{
    if text_eq(cs, i, n, &vec!['C', 'l', 'a', 's', 's']) {
        Some(TokenKind::KeywordClass)
    } else if text_eq(cs, i, n, &vec!['E', 'n', 'u', 'm']) {
        Some(TokenKind::KeywordEnum)
    } else if text_eq(cs, i, n, &vec!['P', 'r', 'o', 'f', 'i', 'l', 'e']) {
        Some(TokenKind::KeywordProfile)
    } else if text_eq(cs, i, n, &vec!['A', 's', 's', 'o', 'c', 'i', 'a', 't', 'i', 'o', 'n']) {
        Some(TokenKind::KeywordAssociation)
    } else if text_eq(cs, i, n, &vec!['e', 'x', 't', 'e', 'n', 'd', 's']) {
        Some(TokenKind::KeywordExtends)
    } else if text_eq(cs, i, n, &vec!['f', 'u', 'n', 'c', 't', 'i', 'o', 'n']) {
        Some(TokenKind::KeywordFunction)
    } else if text_eq(cs, i, n, &vec!['l', 'e', 't']) {
        Some(TokenKind::KeywordLet)
    } else if text_eq(cs, i, n, &vec!['t', 'r', 'u', 'e']) || text_eq(
        cs,
        i,
        n,
        &vec!['f', 'a', 'l', 's', 'e'],
    ) {
        Some(TokenKind::Bool)
    } else {
        None
    }
}

/// `scan_word(s, i)`, computed.
fn scan_word_exec(cs: &Vec<char>, i: usize) -> (r: ScanOut)
    requires
        i < cs.len(),
        is_ident_start(cs@[i as int]),
    ensures
        out_view(r) == scan_word(cs@, i as int),
        0 < scan_len(out_view(r)) <= cs.len() - i,
{
    let n = run_exec(cs, i, 0, CharClass::IdentChar);
    proof {
        lemma_run_first(cs@, i as int, CharClass::IdentChar);
    }
    match keyword_kind_exec(cs, i, n) {
        Some(k) => {
            let v: i64 = if text_eq(cs, i, n, &vec!['t', 'r', 'u', 'e']) {
                1
            } else {
                0
            };
            ScanOut::Tok(k, i, i + n, n, v)
        },
        None => ScanOut::Tok(TokenKind::Ident, i, i + n, n, 0),
    }
}

/// `scan_punct(s, i)`, computed.
fn scan_punct_exec(cs: &Vec<char>, i: usize) -> (r: Option<(TokenKind, usize)>)
    requires
        i < cs.len(),
    ensures
        match r {
            Some((k, n)) => scan_punct(cs@, i as int) == Some((k, n as int)) && 0 < n <= cs.len()
                - i,
            None => scan_punct(cs@, i as int).is_none(),
        },
{
    let c = cs[i];
    if c == '{' {
        Some((TokenKind::LBrace, 1))
    } else if c == '}' {
        if peek_is(cs, i, 1, '#') {
            Some((TokenKind::IslandClose, 2))
        } else {
            Some((TokenKind::RBrace, 1))
        }
    } else if c == '[' {
        Some((TokenKind::LBracket, 1))
    } else if c == ']' {
        Some((TokenKind::RBracket, 1))
    } else if c == '(' {
        Some((TokenKind::LParen, 1))
    } else if c == ')' {
        Some((TokenKind::RParen, 1))
    } else if c == ':' {
        if peek_is(cs, i, 1, ':') {
            Some((TokenKind::PathSep, 2))
        } else {
            Some((TokenKind::Colon, 1))
        }
    } else if c == ';' {
        Some((TokenKind::Semi, 1))
    } else if c == ',' {
        Some((TokenKind::Comma, 1))
    } else if c == '.' {
        Some((TokenKind::Dot, 1))
    } else if c == '|' {
        if peek_is(cs, i, 1, '|') {
            Some((TokenKind::Or, 2))
        } else {
            Some((TokenKind::Pipe, 1))
        }
    } else if c == '-' {
        if peek_is(cs, i, 1, '>') {
            Some((TokenKind::Arrow, 2))
        } else {
            Some((TokenKind::Minus, 1))
        }
    } else if c == '+' {
        Some((TokenKind::Plus, 1))
    } else if c == '*' {
        Some((TokenKind::Star, 1))
    } else if c == '=' {
        if peek_is(cs, i, 1, '=') {
            Some((TokenKind::EqEq, 2))
        } else {
            Some((TokenKind::Eq, 1))
        }
    } else if c == '!' {
        if peek_is(cs, i, 1, '=') {
            Some((TokenKind::NotEq, 2))
        } else {
            Some((TokenKind::Bang, 1))
        }
    } else if c == '<' {
        if peek_is(cs, i, 1, '=') {
            Some((TokenKind::Lte, 2))
        } else if peek_is(cs, i, 1, '<') {
            Some((TokenKind::LDoubleAngle, 2))
        } else {
            Some((TokenKind::Lt, 1))
        }
    } else if c == '>' {
        if peek_is(cs, i, 1, '=') {
            Some((TokenKind::Gte, 2))
        } else if peek_is(cs, i, 1, '>') {
            Some((TokenKind::RDoubleAngle, 2))
        } else {
            Some((TokenKind::Gt, 1))
        }
    } else if c == '&' && peek_is(cs, i, 1, '&') {
        Some((TokenKind::And, 2))
    } else {
        None
    }
}

/// `scan_hash(s, i)`, computed.
fn scan_hash_exec(cs: &Vec<char>, i: usize) -> (r: ScanOut)
    requires
        i < cs.len(),
        cs@[i as int] == '#',
    ensures
        out_view(r) == scan_hash(cs@, i as int),
        0 < scan_len(out_view(r)) <= cs.len() - i,
{
    if peek_is(cs, i, 1, '>') {
        match find_close_exec(cs, i + 2) {
            Some(p) => ScanOut::Tok(TokenKind::IslandOpen, i + 2, p, p - i, 0),
            None => ScanOut::Fail(2),
        }
    } else if peek_is(cs, i, 1, '#') {
        if peek_is(cs, i, 2, '#') {
            let r = run_exec(cs, i, 3, CharClass::IdentChar);
            if r > 0 {
                ScanOut::Tok(TokenKind::SectionHeader, i + 3, i + 3 + r, 3 + r, 0)
            } else {
                ScanOut::Fail(3)
            }
        } else {
            ScanOut::Fail(2)
        }
    } else {
        let k = run_exec(cs, i, 1, CharClass::Alpha);
        if k > 0 && peek_is(cs, i, 1 + k, '{') {
            ScanOut::Tok(TokenKind::IslandExtendedOpen, i + 1, i + 1 + k, k + 2, 0)
        } else {
            ScanOut::Fail(1 + k)
        }
    }
}

/// `date_len(s, i)`, computed (for a position holding a full date core).
fn date_len_exec(cs: &Vec<char>, i: usize) -> (n: usize)
    requires
        i < cs.len(),
        shape_prefix(cs@, i as int, date_core(), 0) == 11,
    ensures
        n == date_len(cs@, i as int),
        11 <= n <= cs.len() - i,
{
    let core = vec!['%', '9', '9', '9', '9', '-', '9', '9', '-', '9', '9'];
    let m = shape_prefix_exec(cs, i, &core);
    assert(core@ =~= date_core());
    let time = vec!['T', '9', '9', ':', '9', '9', ':', '9', '9'];
    assert(time@ =~= date_time());
    let t = shape_prefix_exec(cs, i + 11, &time);
    if t != 9 {
        return 11;
    }
    let f = i + 20;
    let frac: usize = if peek_is(cs, f, 0, '.') && peek_class(cs, f, 1, CharClass::Digit) {
        1 + run_exec(cs, f, 1, CharClass::Digit)
    } else {
        0
    };
    let z = f + frac;
    let plus = vec!['+', '9', '9', '9', '9'];
    let minus = vec!['-', '9', '9', '9', '9'];
    assert(plus@ =~= date_zone());
    assert(minus@ =~= date_zone_minus());
    let zl: usize = if shape_prefix_exec(cs, z, &plus) == 5 || shape_prefix_exec(cs, z, &minus)
        == 5 {
        5
    } else if peek_is(cs, z, 0, 'Z') {
        1
    } else {
        0
    };
    z + zl - i
}

/// `scan(s, i)`, computed.
pub fn scan_exec(cs: &Vec<char>, i: usize) -> (r: ScanOut)
    requires
        i < cs.len(),
    ensures
        out_view(r) == scan(cs@, i as int),
        0 < scan_len(out_view(r)) <= cs.len() - i,
{
    let c = cs[i];
    if class_has(CharClass::Space, c) {
        let n = run_exec(cs, i, 0, CharClass::Space);
        proof {
            lemma_run_first(cs@, i as int, CharClass::Space);
        }
        return ScanOut::Skip(n);
    }
    if c == '/' && peek_is(cs, i, 1, '/') {
        let n = run_exec(cs, i, 2, CharClass::LineChar);
        return ScanOut::Skip(2 + n);
    }
    if c == '/' && peek_is(cs, i, 1, '*') {
        match block_end_exec(cs, i + 2) {
            Some(e) => {
                return ScanOut::Skip(e - i);
            },
            None => {},
        }
    }
    if c == '/' {
        return ScanOut::Tok(TokenKind::Slash, i, i, 1, 0);
    }
    if class_has(CharClass::Digit, c) || (c == '-' && peek_class(cs, i, 1, CharClass::Digit)) {
        return scan_number_exec(cs, i);
    }
    if class_has(CharClass::Alpha, c) || c == '_' {
        return scan_word_exec(cs, i);
    }
    if c == '$' {
        if peek_is(cs, i, 1, '_') || peek_class(cs, i, 1, CharClass::Alpha) {
            let n = run_exec(cs, i, 1, CharClass::IdentChar);
            return ScanOut::Tok(TokenKind::Variable, i + 1, i + 1 + n, n + 1, 0);
        } else {
            return ScanOut::Fail(1);
        }
    }
    if c == '\'' {
        return match string_end_exec(cs, i + 1) {
            Ok(e) => ScanOut::Tok(TokenKind::StringLit, i + 1, e - 1, e - i, 0),
            Err(d) => ScanOut::Fail(d - i),
        };
    }
    if c == '%' {
        let core = vec!['%', '9', '9', '9', '9', '-', '9', '9', '-', '9', '9'];
        assert(core@ =~= date_core());
        let m = shape_prefix_exec(cs, i, &core);
        proof {
            lemma_shape_prefix_ge(cs@, i as int, date_core(), 1);
        }
        if m == 11 {
            let n = date_len_exec(cs, i);
            return ScanOut::Tok(TokenKind::Date, i + 1, i + n, n, 0);
        } else {
            return ScanOut::Fail(m);
        }
    }
    if c == '#' {
        return scan_hash_exec(cs, i);
    }
    match scan_punct_exec(cs, i) {
        Some((k, n)) => ScanOut::Tok(k, i, i, n, 0),
        None => ScanOut::Fail(1),
    }
}


// ───────────────────────────── tokens from text ─────────────────────────────

/// The text `source[a..b]` (character positions).
fn text_of(source: &str, a: usize, b: usize) -> (r: String)
    requires
        a <= b <= source@.len(),
    ensures
        r@ == source@.subrange(a as int, b as int),
{
    source.substring_char(a, b).to_string()
}

/// The token of `kind` whose text is `source[a..b]` and value `v`.
fn make_token(source: &str, kind: TokenKind, a: usize, b: usize, v: i64) -> (t: Token)
    requires
        a <= b <= source@.len(),
    ensures
        t.spec_kind() == kind,
        t.text() == (if has_text(kind) {
            source@.subrange(a as int, b as int)
        } else {
            Seq::<char>::empty()
        }),
        kind == TokenKind::Integer ==> t == Token::Integer(v),
        kind == TokenKind::Bool ==> t == Token::Bool(v != 0),
{
    match kind {
        TokenKind::Ident => Token::Ident(text_of(source, a, b)),
        TokenKind::Variable => Token::Variable(text_of(source, a, b)),
        TokenKind::StringLit => Token::StringLit(text_of(source, a, b)),
        TokenKind::Float => Token::Float(text_of(source, a, b)),
        TokenKind::Decimal => Token::Decimal(text_of(source, a, b)),
        TokenKind::Date => Token::Date(text_of(source, a, b)),
        TokenKind::SectionHeader => Token::SectionHeader(text_of(source, a, b)),
        TokenKind::IslandOpen => Token::IslandOpen(text_of(source, a, b)),
        TokenKind::IslandExtendedOpen => Token::IslandExtendedOpen(text_of(source, a, b)),
        TokenKind::Integer => Token::Integer(v),
        TokenKind::Bool => Token::Bool(v != 0),
        TokenKind::LBrace => Token::LBrace,
        TokenKind::RBrace => Token::RBrace,
        TokenKind::LBracket => Token::LBracket,
        TokenKind::RBracket => Token::RBracket,
        TokenKind::LParen => Token::LParen,
        TokenKind::RParen => Token::RParen,
        TokenKind::Colon => Token::Colon,
        TokenKind::Semi => Token::Semi,
        TokenKind::Comma => Token::Comma,
        TokenKind::Dot => Token::Dot,
        TokenKind::PathSep => Token::PathSep,
        TokenKind::Pipe => Token::Pipe,
        TokenKind::Arrow => Token::Arrow,
        TokenKind::Plus => Token::Plus,
        TokenKind::Minus => Token::Minus,
        TokenKind::Star => Token::Star,
        TokenKind::Slash => Token::Slash,
        TokenKind::Eq => Token::Eq,
        TokenKind::EqEq => Token::EqEq,
        TokenKind::NotEq => Token::NotEq,
        TokenKind::Lt => Token::Lt,
        TokenKind::Lte => Token::Lte,
        TokenKind::Gt => Token::Gt,
        TokenKind::Gte => Token::Gte,
        TokenKind::LDoubleAngle => Token::LDoubleAngle,
        TokenKind::RDoubleAngle => Token::RDoubleAngle,
        TokenKind::And => Token::And,
        TokenKind::Or => Token::Or,
        TokenKind::Bang => Token::Bang,
        TokenKind::KeywordClass => Token::KeywordClass,
        TokenKind::KeywordEnum => Token::KeywordEnum,
        TokenKind::KeywordProfile => Token::KeywordProfile,
        TokenKind::KeywordAssociation => Token::KeywordAssociation,
        TokenKind::KeywordExtends => Token::KeywordExtends,
        TokenKind::KeywordFunction => Token::KeywordFunction,
        TokenKind::KeywordLet => Token::KeywordLet,
        TokenKind::IslandClose => Token::IslandClose,
    }
}

/// The text and value positions of a scan step lie inside `s`.
pub open spec fn scan_in_bounds(sc: Scan, len: int) -> bool {
    match sc {
        Scan::Tok(_, a, b, _, _) => 0 <= a <= b <= len,
        _ => true,
    }
}

proof fn lemma_scan_in_bounds(s: Seq<char>, i: int)
    requires
        0 <= i < s.len(),
    ensures
        scan_in_bounds(scan(s, i), s.len() as int),
{
    let c = s[i];
    if is_digit(c) || (c == '-' && at_class(s, i + 1, CharClass::Digit)) {
        let p = if s[i] == '-' {
            i + 1
        } else {
            i
        };
        lemma_run_bounds(s, p, CharClass::Digit);
        let q = p + run(s, p, CharClass::Digit);
        if at(s, q, '.') {
            lemma_run_bounds(s, q + 1, CharClass::Digit);
            let r = q + 1 + run(s, q + 1, CharClass::Digit);
            if at(s, r, 'e') || at(s, r, 'E') {
                lemma_run_bounds(s, r + 1, CharClass::Digit);
                if r + 2 <= s.len() {
                    lemma_run_bounds(s, r + 2, CharClass::Digit);
                }
            }
        }
    } else if is_ident_start(c) {
        lemma_run_bounds(s, i, CharClass::IdentChar);
    } else if c == '$' {
        if i + 1 < s.len() {
            lemma_run_bounds(s, i + 1, CharClass::IdentChar);
        }
    } else if c == '\'' {
        lemma_string_end_bounds(s, i + 1);
    } else if c == '%' {
        lemma_shape_prefix_ge(s, i, date_core(), 0);
        if shape_prefix(s, i, date_core(), 0) == 11 {
            lemma_date_len_bounds(s, i);
        }
    } else if c == '#' {
        if at(s, i + 1, '>') {
            lemma_find_close_bounds(s, i + 2);
        } else if at(s, i + 1, '#') && at(s, i + 2, '#') {
            lemma_run_bounds(s, i + 3, CharClass::IdentChar);
        } else if i + 1 <= s.len() {
            lemma_run_bounds(s, i + 1, CharClass::Alpha);
        }
    } else if in_class(CharClass::Space, c) {
        lemma_run_bounds(s, i, CharClass::Space);
    } else if c == '/' && at(s, i + 1, '/') {
        lemma_run_bounds(s, i + 2, CharClass::LineChar);
    } else if c == '/' && at(s, i + 1, '*') {
        lemma_block_end_bounds(s, i + 2);
    }
}

proof fn lemma_string_end_bounds(s: Seq<char>, j: int)
    requires
        0 <= j <= s.len(),
    ensures
        match string_end(s, j) {
            Ok(e) => j < e <= s.len(),
            Err(d) => j <= d <= s.len(),
        },
    decreases s.len() - j,
{
    if j < s.len() && s[j] != '\'' {
        if s[j] == '\\' {
            if j + 1 < s.len() && s[j + 1] != '\n' {
                lemma_string_end_bounds(s, j + 2);
            }
        } else {
            lemma_string_end_bounds(s, j + 1);
        }
    }
}

proof fn lemma_find_close_bounds(s: Seq<char>, j: int)
    requires
        0 <= j,
    ensures
        find_close(s, j).is_some() ==> j <= find_close(s, j).unwrap() && find_close(s, j).unwrap()
            + 2 <= s.len(),
    decreases s.len() - j,
{
    if j + 1 < s.len() && !(s[j] == '}' && s[j + 1] == '#') {
        lemma_find_close_bounds(s, j + 1);
    }
}

proof fn lemma_block_end_bounds(s: Seq<char>, j: int)
    requires
        0 <= j,
    ensures
        block_end(s, j).is_some() ==> j < block_end(s, j).unwrap() <= s.len(),
    decreases s.len() - j,
{
    if 0 <= j < s.len() {
        if s[j] != '*' {
            lemma_block_end_bounds(s, j + 1);
        } else if j + 1 < s.len() && s[j + 1] != '/' {
            lemma_block_end_bounds(s, j + 2);
        }
    }
}

proof fn lemma_date_len_bounds(s: Seq<char>, i: int)
    requires
        0 <= i < s.len(),
        shape_prefix(s, i, date_core(), 0) == 11,
    ensures
        11 <= date_len(s, i) <= s.len() - i,
{
    lemma_shape_prefix_in_bounds(s, i, date_core(), 0);
    if shape_prefix(s, i + 11, date_time(), 0) == 9 {
        lemma_shape_prefix_in_bounds(s, i + 11, date_time(), 0);
        let f = i + 20;
        if at(s, f, '.') && at_class(s, f + 1, CharClass::Digit) {
            lemma_run_bounds(s, f + 1, CharClass::Digit);
        }
        let z = f + date_fraction(s, f);
        if shape_prefix(s, z, date_zone(), 0) == 5 {
            lemma_shape_prefix_in_bounds(s, z, date_zone(), 0);
        } else if shape_prefix(s, z, date_zone_minus(), 0) == 5 {
            lemma_shape_prefix_in_bounds(s, z, date_zone_minus(), 0);
        }
    }
}

proof fn lemma_shape_prefix_in_bounds(s: Seq<char>, i: int, shape: Seq<char>, k: int)
    requires
        0 <= i,
        0 <= k <= shape.len(),
        k <= s.len() - i,
    ensures
        shape_prefix(s, i, shape, k) <= s.len() - i,
    decreases shape.len() - k,
{
    if 0 <= k < shape.len() && 0 <= i + k < s.len() && shape_at(shape, k, s[i + k]) {
        lemma_shape_prefix_in_bounds(s, i, shape, k + 1);
    }
}

/// The tokens of `source`, each with its character span.
pub fn lex_chars(source: &str, cs: &Vec<char>) -> (r: Vec<(Token, usize, usize)>)
    requires
        cs@ == source@,
    ensures
        r@.len() == lexemes(cs@, 0).len(),
        forall|k: int|
            0 <= k < r@.len() ==> {
                let l = #[trigger] lexemes(cs@, 0)[k];
                &&& denotes(r@[k].0, cs@, l)
                &&& r@[k].1 == l.start
                &&& r@[k].2 == l.end
                &&& 0 <= l.start < l.end <= cs@.len()
            },
{
    let ghost s = cs@;
    let mut out: Vec<(Token, usize, usize)> = Vec::new();
    let ghost mut done: Seq<Lexeme> = Seq::empty();
    let mut i: usize = 0;
    while i < cs.len()
        invariant
            s == cs@,
            s == source@,
            i <= cs.len(),
            done + lexemes(s, i as int) == lexemes(s, 0),
            out@.len() == done.len(),
            forall|k: int|
                0 <= k < out@.len() ==> {
                    let l = #[trigger] done[k];
                    &&& denotes(out@[k].0, s, l)
                    &&& out@[k].1 == l.start
                    &&& out@[k].2 == l.end
                    &&& 0 <= l.start < l.end <= s.len()
                },
        decreases cs.len() - i,
    {
        let sc = scan_exec(cs, i);
        proof {
            lemma_scan_in_bounds(s, i as int);
        }
        match sc {
            ScanOut::Skip(n) => {
                i = i + n;
            },
            ScanOut::Fail(n) => {
                i = i + n;
            },
            ScanOut::Tok(k, a, b, n, v) => {
                let t = make_token(source, k, a, b, v);
                let ghost l = Lexeme {
                    kind: k,
                    text_start: a as int,
                    text_end: b as int,
                    start: i as int,
                    end: i + n,
                    value: v as int,
                };
                assert(lexemes(s, i as int) == seq![l] + lexemes(s, i + n));
                proof {
                    done = done.push(l);
                    assert(done + lexemes(s, (i + n) as int) =~= (done.drop_last() + seq![l])
                        + lexemes(s, i + n));
                }
                out.push((t, i, i + n));
                i = i + n;
            },
        }
    }
    assert(lexemes(s, i as int) =~= Seq::<Lexeme>::empty());
    assert(done =~= lexemes(s, 0));
    out
}

// ───────────────────────────── byte positions ─────────────────────────────

/// Byte offset, in the UTF-8 encoding of `s`, of character position `k`.
pub open spec fn byte_pos(s: Seq<char>, k: int) -> int {
    encode_utf8(s.take(k)).len() as int
}

proof fn lemma_encode_concat(a: Seq<char>, b: Seq<char>)
    ensures
        encode_utf8(a + b) == encode_utf8(a) + encode_utf8(b),
    decreases a.len(),
{
    if a.len() == 0 {
        assert(a + b =~= b);
        assert(encode_utf8(a) =~= Seq::<u8>::empty());
        assert(encode_utf8(a) + encode_utf8(b) =~= encode_utf8(b));
    } else {
        lemma_encode_concat(a.drop_first(), b);
        assert((a + b).drop_first() =~= a.drop_first() + b);
        assert(encode_utf8(a + b) =~= encode_scalar(a[0] as u32) + encode_utf8(a.drop_first() + b));
    }
}

proof fn lemma_byte_pos_step(s: Seq<char>, k: int)
    requires
        0 <= k < s.len(),
    ensures
        byte_pos(s, k + 1) == byte_pos(s, k) + encode_scalar(s[k] as u32).len(),
        byte_pos(s, k + 1) <= byte_pos(s, s.len() as int),
{
    lemma_encode_concat(s.take(k), seq![s[k]]);
    assert(s.take(k + 1) =~= s.take(k) + seq![s[k]]);
    assert(seq![s[k]].drop_first() =~= Seq::<char>::empty());
    assert(encode_utf8(seq![s[k]]) =~= encode_scalar(s[k] as u32) + encode_utf8(
        Seq::<char>::empty(),
    ));
    lemma_encode_concat(s.take(k + 1), s.subrange(k + 1, s.len() as int));
    assert(s.take(k + 1) + s.subrange(k + 1, s.len() as int) =~= s.take(s.len() as int));
}

/// UTF-8 width of `c`.
fn utf8_width(c: char) -> (w: usize)
    ensures
        w == encode_scalar(c as u32).len(),
{
    let u = c as u32;
    proof {
        char_is_scalar(c);
    }
    if u < 0x80 {
        1
    } else if u < 0x800 {
        2
    } else if u < 0x10000 {
        3
    } else {
        4
    }
}

/// The byte offset of every character position `0..=len` of `source`.
pub fn byte_offsets(source: &str, cs: &Vec<char>) -> (r: Vec<usize>)
    requires
        cs@ == source@,
    ensures
        r@.len() == cs@.len() + 1,
        forall|k: int| 0 <= k <= cs@.len() ==> r@[k] == byte_pos(cs@, k),
{
    let ghost s = cs@;
    let total = source.as_bytes().len();
    proof {
        assert(s.take(s.len() as int) =~= s);
    }
    let mut out: Vec<usize> = Vec::new();
    out.push(0);
    assert(s.take(0) =~= Seq::<char>::empty());
    assert(encode_utf8(Seq::<char>::empty()) =~= Seq::<u8>::empty());
    let mut acc: usize = 0;
    let mut k: usize = 0;
    while k < cs.len()
        invariant
            s == cs@,
            s == source@,
            total == byte_pos(s, s.len() as int),
            k <= cs.len(),
            acc == byte_pos(s, k as int),
            out@.len() == k + 1,
            forall|j: int| 0 <= j <= k ==> out@[j] == byte_pos(s, j),
        decreases cs.len() - k,
    {
        proof {
            lemma_byte_pos_step(s, k as int);
        }
        acc = acc + utf8_width(cs[k]);
        out.push(acc);
        k = k + 1;
    }
    out
}

/// Converts a `&str` to its characters.
pub fn chars_of(s: &str) -> (r: Vec<char>)
    ensures
        r@ == s@,
{
    let mut out: Vec<char> = Vec::new();
    for c in it: s.chars()
        invariant
            out@ == it.seq().take(it.index() as int),
    {
        out.push(c);
    }
    out
}

// ───────────────────────────── line index ─────────────────────────────

/// The byte offsets at which the lines of `s` start, from its first `k`
/// characters: 0, then the offset just after each `\n`.
pub open spec fn line_starts_of(s: Seq<char>, k: int) -> Seq<int>
    decreases k,
{
    if k <= 0 {
        seq![0int]
    } else if s[k - 1] == '\n' {
        line_starts_of(s, k - 1).push(byte_pos(s, k))
    } else {
        line_starts_of(s, k - 1)
    }
}

/// Strictly increasing and starting at 0.
pub open spec fn starts_ok(st: Seq<int>) -> bool {
    &&& st.len() >= 1
    &&& st[0] == 0
    &&& forall|a: int, b: int| 0 <= a < b < st.len() ==> st[a] < st[b]
}

/// The line (1-based) holding byte offset `b`: the number of line starts
/// at or before `b`.
pub open spec fn line_number(st: Seq<int>, b: int) -> int {
    choose|n: int| #[trigger] is_line_of(st, b, n)
}

/// Line `n` (1-based) starts at or before `b`, and the next line after it.
pub open spec fn is_line_of(st: Seq<int>, b: int, n: int) -> bool {
    1 <= n <= st.len() && st[n - 1] <= b && (n < st.len() ==> b < st[n])
}

/// `(line, column)` of byte offset `b`, both 1-based.
pub open spec fn line_col(st: Seq<int>, b: int) -> (int, int) {
    (line_number(st, b), b - st[line_number(st, b) - 1] + 1)
}

/// The line starts of the whole of `s`.
pub open spec fn line_starts(s: Seq<char>) -> Seq<int> {
    line_starts_of(s, s.len() as int)
}

proof fn lemma_line_number_unique(st: Seq<int>, b: int, n: int)
    requires
        starts_ok(st),
        1 <= n <= st.len(),
        st[n - 1] <= b,
        n < st.len() ==> b < st[n],
    ensures
        line_number(st, b) == n,
{
    assert(is_line_of(st, b, n));
    let m = line_number(st, b);
    assert(is_line_of(st, b, m));
    if m < n {
        assert(st[m] <= st[n - 1]);
    } else if m > n {
        assert(st[n] <= st[m - 1]);
    }
}

pub open spec fn as_ints(v: Seq<usize>) -> Seq<int> {
    v.map_values(|x: usize| x as int)
}

/// Maps byte offsets of a source text to lines and columns.
pub struct LineIndexer {
    source_id: String,
    line_starts: Vec<usize>,
}

impl LineIndexer {
    #[verifier::type_invariant]
    spec fn inv(self) -> bool {
        starts_ok(as_ints(self.line_starts@))
    }

    /// The source id spans are reported with.
    pub closed spec fn id(&self) -> Seq<char> {
        self.source_id@
    }

    /// The byte offsets at which lines start.
    pub closed spec fn starts(&self) -> Seq<int> {
        as_ints(self.line_starts@)
    }

    /// Indexes the lines of `source`.
    pub fn new(source_id: &str, source: &str) -> (r: LineIndexer)
        ensures
            r.id() == source_id@,
            r.starts() == line_starts(source@),
            starts_ok(r.starts()),
    {
        let cs = chars_of(source);
        let offs = byte_offsets(source, &cs);
        let ghost s = cs@;
        let mut starts: Vec<usize> = Vec::new();
        starts.push(0);
        let mut k: usize = 0;
        assert(as_ints(starts@) =~= line_starts_of(s, 0));
        while k < cs.len()
            invariant
                s == cs@,
                s == source@,
                k <= cs.len(),
                offs@.len() == cs@.len() + 1,
                forall|j: int| 0 <= j <= cs@.len() ==> offs@[j] == byte_pos(cs@, j),
                as_ints(starts@) == line_starts_of(s, k as int),
                starts_ok(as_ints(starts@)),
                starts@[starts@.len() - 1] <= byte_pos(s, k as int),
            decreases cs.len() - k,
        {
            proof {
                lemma_byte_pos_step(s, k as int);
                char_is_scalar(s[k as int]);
            }
            if cs[k] == '\n' {
                let ghost old_starts = starts@;
                starts.push(offs[k + 1]);
                proof {
                    assert(encode_scalar(s[k as int] as u32).len() == 1);
                    assert(as_ints(starts@) =~= as_ints(old_starts).push(byte_pos(s, k + 1)));
                    let ns = as_ints(starts@);
                    assert forall|a: int, b: int| 0 <= a < b < ns.len() implies ns[a] < ns[b] by {
                        if b == ns.len() - 1 {
                            assert(ns[a] <= ns[b - 1]);
                        }
                    }
                }
            }
            k = k + 1;
        }
        let r = LineIndexer { source_id: source_id.to_string(), line_starts: starts };
        r
    }

    /// 1-based `(line, column)` of a byte offset.
    pub fn byte_to_line_col(&self, byte_index: usize) -> (r: (usize, usize))
        requires
            byte_index < usize::MAX,
        ensures
            r.0 as int == line_col(self.starts(), byte_index as int).0,
            r.1 as int == line_col(self.starts(), byte_index as int).1,
    {
        proof {
            use_type_invariant(self);
        }
        let st = &self.line_starts;
        let ghost g = self.starts();
        assert(g.len() == st@.len());
        assert(forall|j: int| 0 <= j < st@.len() ==> g[j] == st@[j] as int);
        // Binary search for the last line start at or before `byte_index`.
        let mut lo: usize = 0;
        let mut hi: usize = st.len();
        while hi - lo > 1
            invariant
                g == as_ints(st@),
                starts_ok(g),
                lo < hi <= st.len(),
                st@[lo as int] <= byte_index,
                hi < st.len() ==> byte_index < st@[hi as int],
            decreases hi - lo,
        {
            let mid = lo + (hi - lo) / 2;
            if st[mid] <= byte_index {
                lo = mid;
            } else {
                hi = mid;
            }
        }
        proof {
            lemma_line_number_unique(g, byte_index as int, (lo + 1) as int);
        }
        let col = byte_index - st[lo];
        (lo + 1, col + 1)
    }

    /// The source location of the byte span `start..end`.
    pub fn span_to_source_info(&self, start: usize, end: usize) -> (r: SourceInfo)
        requires
            start < usize::MAX,
            end < usize::MAX,
        ensures
            r.source_id@ == self.id(),
            r.start_line as int == line_col(self.starts(), start as int).0,
            r.start_column as int == line_col(self.starts(), start as int).1,
            r.end_line as int == line_col(self.starts(), end as int).0,
            r.end_column as int == line_col(self.starts(), end as int).1,
    {
        let (start_line, start_column) = self.byte_to_line_col(start);
        let (end_line, end_column) = self.byte_to_line_col(end);
        SourceInfo::new(self.source_id.as_str(), start_line, start_column, end_line, end_column)
    }
}

/// A token with its source location.
#[derive(Debug)]
pub struct SpannedToken {
    pub token: Token,
    pub source_info: SourceInfo,
}

/// `t` is lexeme `l` of `source`, located in the source named `id`.
pub open spec fn spanned(t: SpannedToken, id: Seq<char>, source: Seq<char>, l: Lexeme) -> bool {
    let st = line_starts(source);
    &&& denotes(t.token, source, l)
    &&& t.source_info.source_id@ == id
    &&& t.source_info.start_line == line_col(st, byte_pos(source, l.start)).0
    &&& t.source_info.start_column == line_col(st, byte_pos(source, l.start)).1
    &&& t.source_info.end_line == line_col(st, byte_pos(source, l.end)).0
    &&& t.source_info.end_column == line_col(st, byte_pos(source, l.end)).1
}

/// The tokens of `source`, each located in the source named `source_id`.
pub fn lex_source(source_id: &str, source: &str) -> (r: Vec<SpannedToken>)
    requires
        byte_pos(source@, source@.len() as int) < usize::MAX,
    ensures
        r@.len() == lexemes(source@, 0).len(),
        forall|k: int|
            0 <= k < r@.len() ==> spanned(r@[k], source_id@, source@, #[trigger] lexemes(
                source@,
                0,
            )[k]),
{
    let indexer = LineIndexer::new(source_id, source);
    let cs = chars_of(source);
    let offs = byte_offsets(source, &cs);
    let raw = lex_chars(source, &cs);
    let ghost s = source@;
    let mut out: Vec<SpannedToken> = Vec::new();
    let mut k: usize = 0;
    while k < raw.len()
        invariant
            s == source@,
            s == cs@,
            indexer.id() == source_id@,
            indexer.starts() == line_starts(s),
            byte_pos(s, s.len() as int) < usize::MAX,
            offs@.len() == cs@.len() + 1,
            forall|j: int| 0 <= j <= cs@.len() ==> offs@[j] == byte_pos(s, j),
            raw@.len() == lexemes(s, 0).len(),
            forall|j: int|
                0 <= j < raw@.len() ==> {
                    let l = #[trigger] lexemes(s, 0)[j];
                    &&& denotes(raw@[j].0, s, l)
                    &&& raw@[j].1 == l.start
                    &&& raw@[j].2 == l.end
                    &&& 0 <= l.start < l.end <= s.len()
                },
            k <= raw.len(),
            out@.len() == k,
            forall|j: int| 0 <= j < k ==> spanned(out@[j], source_id@, s, #[trigger] lexemes(s, 0)[j]),
        decreases raw.len() - k,
    {
        let (a, b) = (raw[k].1, raw[k].2);
        proof {
            let l = lexemes(s, 0)[k as int];
            if a < s.len() {
                lemma_byte_pos_step(s, a as int);
            }
            if b < s.len() {
                lemma_byte_pos_step(s, b as int);
            }
            assert(s.take(s.len() as int) =~= s);
        }
        let info = indexer.span_to_source_info(offs[a], offs[b]);
        let t = raw[k].0.duplicate();
        out.push(SpannedToken { token: t, source_info: info });
        k = k + 1;
    }
    out
}


// ───────────────────────────── laws ─────────────────────────────

/// The tokens of `s` from `i` on lie inside `s`, each over a non-empty
/// stretch, one after the other without overlap.
pub proof fn lemma_lexemes_ordered(s: Seq<char>, i: int)
    requires
        0 <= i,
    ensures
        forall|k: int|
            0 <= k < lexemes(s, i).len() ==> i <= (#[trigger] lexemes(s, i)[k]).start < lexemes(s, i)[k].end
                <= s.len(),
        forall|a: int, b: int|
            0 <= a < b < lexemes(s, i).len() ==> (#[trigger] lexemes(s, i)[a]).end <= (#[trigger] lexemes(
                s,
                i,
            )[b]).start,
    decreases s.len() - i,
{
    if i < s.len() {
        let sc = scan(s, i);
        let n = scan_len(sc);
        if n > 0 && i + n <= s.len() {
            lemma_lexemes_ordered(s, i + n);
            let rest = lexemes(s, i + n);
            match sc {
                Scan::Tok(k, a, b, _m, v) => {
                    let l = lexemes(s, i);
                    assert(l == seq![
                        Lexeme { kind: k, text_start: a, text_end: b, start: i, end: i + n, value: v },
                    ] + rest);
                    assert forall|j: int| 1 <= j < l.len() implies #[trigger] l[j] == rest[j - 1] by {}
                    assert forall|j: int| 0 <= j < l.len() implies i <= (#[trigger] l[j]).start < l[j].end
                        <= s.len() by {
                        if j > 0 {
                            assert(l[j] == rest[j - 1]);
                        }
                    }
                    assert forall|x: int, y: int| 0 <= x < y < l.len() implies (#[trigger] l[x]).end
                        <= (#[trigger] l[y]).start by {
                        assert(l[y] == rest[y - 1]);
                        if x > 0 {
                            assert(l[x] == rest[x - 1]);
                        }
                    }
                },
                _ => {},
            }
        }
    }
}

/// Some line holds every offset from 0 on.
proof fn lemma_line_exists(st: Seq<int>, b: int, n: int)
    requires
        starts_ok(st),
        1 <= n <= st.len(),
        st[n - 1] <= b,
    ensures
        exists|m: int| #[trigger] is_line_of(st, b, m),
    decreases st.len() - n,
{
    if n < st.len() && st[n] <= b {
        lemma_line_exists(st, b, n + 1);
    } else {
        assert(is_line_of(st, b, n));
    }
}

/// Line numbers start at 1 and never go down as the offset grows, and
/// columns start at 1.
pub proof fn lemma_line_col_monotone(st: Seq<int>, b1: int, b2: int)
    requires
        starts_ok(st),
        0 <= b1 <= b2,
    ensures
        1 <= line_col(st, b1).0 <= line_col(st, b2).0 <= st.len(),
        line_col(st, b1).1 >= 1,
        line_col(st, b1).0 == line_col(st, b2).0 ==> line_col(st, b2).1 - line_col(st, b1).1 == b2 - b1,
{
    lemma_line_exists(st, b1, 1);
    lemma_line_exists(st, b2, 1);
    let m1 = line_number(st, b1);
    let m2 = line_number(st, b2);
    assert(is_line_of(st, b1, m1));
    assert(is_line_of(st, b2, m2));
    if m1 > m2 {
        assert(st[m2] <= st[m1 - 1]);
    }
}


/// The number of `\n` among the first `k` characters of `s`.
pub open spec fn newlines_before(s: Seq<char>, k: int) -> int
    decreases k,
{
    if k <= 0 {
        0
    } else {
        newlines_before(s, k - 1) + if s[k - 1] == '\n' {
            1int
        } else {
            0int
        }
    }
}

/// Byte offsets grow with every character.
proof fn lemma_byte_pos_grows(s: Seq<char>, k: int)
    requires
        0 <= k < s.len(),
    ensures
        byte_pos(s, k) < byte_pos(s, k + 1),
{
    lemma_byte_pos_step(s, k);
    assert(encode_scalar(s[k] as u32).len() >= 1);
}

/// The line starts of a prefix: one more than its newlines, the last of
/// them at or before the prefix's end, strictly increasing, and kept as a
/// prefix by every longer one.
proof fn lemma_line_starts_prefix(s: Seq<char>, k: int, k2: int)
    requires
        0 <= k <= k2 <= s.len(),
    ensures
        line_starts_of(s, k).len() == newlines_before(s, k) + 1,
        line_starts_of(s, k).last() <= byte_pos(s, k),
        starts_ok(line_starts_of(s, k)),
        line_starts_of(s, k).len() <= line_starts_of(s, k2).len(),
        line_starts_of(s, k2).take(line_starts_of(s, k).len() as int) == line_starts_of(s, k),
    decreases k2,
{
    if k2 > k {
        lemma_line_starts_prefix(s, k, k2 - 1);
        lemma_line_starts_prefix(s, k2 - 1, k2 - 1);
        let a = line_starts_of(s, k2 - 1);
        let n = line_starts_of(s, k).len() as int;
        if s[k2 - 1] == '\n' {
            assert(a.push(byte_pos(s, k2)).take(n) =~= a.take(n));
        }
    } else if k > 0 {
        lemma_line_starts_prefix(s, k - 1, k - 1);
        lemma_byte_pos_grows(s, k - 1);
        let a = line_starts_of(s, k - 1);
        if s[k - 1] == '\n' {
            let b = a.push(byte_pos(s, k));
            assert forall|x: int, y: int| 0 <= x < y < b.len() implies b[x] < b[y] by {
                if y == b.len() - 1 {
                    assert(b[x] <= a.last());
                }
            }
        }
        assert(line_starts_of(s, k).take(line_starts_of(s, k).len() as int) =~= line_starts_of(s, k));
    } else {
        assert(line_starts_of(s, 0).take(1) =~= line_starts_of(s, 0));
    }
}

/// The first byte of a source is line 1, column 1.
pub proof fn lemma_first_byte_is_line_one(s: Seq<char>)
    ensures
        line_col(line_starts(s), 0) == (1int, 1int),
{
    lemma_line_starts_prefix(s, s.len() as int, s.len() as int);
    lemma_line_starts_prefix(s, 0, s.len() as int);
    let st = line_starts(s);
    assert(st[0] == line_starts_of(s, 0)[0]);
    if 1 < st.len() {
        assert(st[0] < st[1]);
    }
    lemma_line_number_unique(st, 0, 1);
}

/// A `\n` ends its line: the byte after it is column 1 of the next line.
pub proof fn lemma_newline_starts_line(s: Seq<char>, j: int)
    requires
        0 <= j < s.len(),
        s[j] == '\n',
    ensures
        line_col(line_starts(s), byte_pos(s, j + 1)) == (
            line_col(line_starts(s), byte_pos(s, j)).0 + 1,
            1int,
        ),
{
    let n = s.len() as int;
    let st = line_starts(s);
    lemma_line_starts_prefix(s, n, n);
    lemma_line_starts_prefix(s, j, n);
    lemma_line_starts_prefix(s, j + 1, n);
    lemma_byte_pos_grows(s, j);
    let m = newlines_before(s, j) + 1;
    let pre = line_starts_of(s, j);
    let pre1 = line_starts_of(s, j + 1);
    assert(pre1 == pre.push(byte_pos(s, j + 1)));
    assert(st.take(m + 1) == pre1);
    assert(st.take(m + 1)[m - 1] == st[m - 1]);
    assert(st.take(m + 1)[m] == st[m]);
    assert(st[m - 1] == pre.last());
    assert(st[m] == byte_pos(s, j + 1));
    lemma_line_number_unique(st, byte_pos(s, j), m);
    if m + 1 < st.len() {
        assert(st[m] < st[m + 1]);
    }
    lemma_line_number_unique(st, byte_pos(s, j + 1), m + 1);
}

/// A run of digits from `p` up to a non-digit (or the end) at `q`.
proof fn lemma_digit_run(s: Seq<char>, p: int, q: int)
    requires
        0 <= p <= q <= s.len(),
        forall|k: int| p <= k < q ==> is_digit(#[trigger] s[k]),
        q == s.len() || !is_digit(s[q]),
    ensures
        run(s, p, CharClass::Digit) == q - p,
    decreases q - p,
{
    if p < q {
        lemma_digit_run(s, p + 1, q);
    }
}

/// A literal `-?[0-9]+\.[0-9]+[eE][-+]?[0-9]+` at `i` (digits from `p`
/// to the `.` at `q`, from `q + 1` to the `e` at `r`, from `t` to `u`,
/// where the digits stop) is one `Float` token, whose text is the whole
/// literal, exponent included.
pub proof fn lemma_float_with_exponent(s: Seq<char>, i: int, p: int, q: int, r: int, t: int, u: int)
    requires
        0 <= i,
        p == i || (p == i + 1 && s[i] == '-'),
        p < q,
        q + 1 < r,
        t < u <= s.len(),
        forall|k: int| p <= k < q ==> is_digit(#[trigger] s[k]),
        s[q] == '.',
        forall|k: int| q + 1 <= k < r ==> is_digit(#[trigger] s[k]),
        s[r] == 'e' || s[r] == 'E',
        t == r + 1 || (t == r + 2 && (s[r + 1] == '+' || s[r + 1] == '-')),
        forall|k: int| t <= k < u ==> is_digit(#[trigger] s[k]),
        u == s.len() || !is_digit(s[u]),
    ensures
        lexemes(s, i).len() >= 1,
        lexemes(s, i)[0] == (Lexeme { kind: TokenKind::Float, text_start: i, text_end: u, start: i, end: u, value: 0 }),
        lexemes(s, i).drop_first() == lexemes(s, u),
{
    lemma_digit_run(s, p, q);
    lemma_digit_run(s, q + 1, r);
    lemma_digit_run(s, t, u);
    assert(is_digit(s[p]));
    assert(is_digit(s[t]));
    assert(float_end(s, r) == u);
    assert(scan_number(s, i) == Scan::Tok(TokenKind::Float, i, u, u - i, 0));
    assert(scan(s, i) == Scan::Tok(TokenKind::Float, i, u, u - i, 0));
    let l = Lexeme { kind: TokenKind::Float, text_start: i, text_end: u, start: i, end: u, value: 0 };
    assert(lexemes(s, i) == seq![l] + lexemes(s, u));
    assert((seq![l] + lexemes(s, u)).drop_first() =~= lexemes(s, u));
}

/// A literal `-?[0-9]+\.[0-9]+` at `i` followed by neither a digit, an
/// exponent nor `d` is one `Float` token, whose text is the whole literal.
pub proof fn lemma_float_plain(s: Seq<char>, i: int, p: int, q: int, r: int)
    requires
        0 <= i,
        p == i || (p == i + 1 && s[i] == '-'),
        p < q,
        q + 1 < r <= s.len(),
        forall|k: int| p <= k < q ==> is_digit(#[trigger] s[k]),
        s[q] == '.',
        forall|k: int| q + 1 <= k < r ==> is_digit(#[trigger] s[k]),
        r == s.len() || !(is_digit(s[r]) || s[r] == 'e' || s[r] == 'E' || s[r] == 'd'),
    ensures
        lexemes(s, i).len() >= 1,
        lexemes(s, i)[0] == (Lexeme { kind: TokenKind::Float, text_start: i, text_end: r, start: i, end: r, value: 0 }),
        lexemes(s, i).drop_first() == lexemes(s, r),
{
    lemma_digit_run(s, p, q);
    lemma_digit_run(s, q + 1, r);
    assert(is_digit(s[p]));
    assert(float_end(s, r) == r);
    assert(scan(s, i) == Scan::Tok(TokenKind::Float, i, r, r - i, 0));
    let l = Lexeme { kind: TokenKind::Float, text_start: i, text_end: r, start: i, end: r, value: 0 };
    assert(lexemes(s, i) == seq![l] + lexemes(s, r));
    assert((seq![l] + lexemes(s, r)).drop_first() =~= lexemes(s, r));
}

/// A literal `-?[0-9]+d` or `-?[0-9]+\.[0-9]+d` at `i` (digits from `p`,
/// the `d` at `e`, the optional fraction's `.` at `q`) is one `Decimal`
/// token whose text is the literal without its `d`.
pub proof fn lemma_decimal_literal(s: Seq<char>, i: int, p: int, q: int, e: int)
    requires
        0 <= i,
        p == i || (p == i + 1 && s[i] == '-'),
        p < q <= e < s.len(),
        forall|k: int| p <= k < q ==> is_digit(#[trigger] s[k]),
        q == e || (s[q] == '.' && q + 1 < e && forall|k: int| q + 1 <= k < e ==> is_digit(#[trigger] s[k])),
        s[e] == 'd',
    ensures
        lexemes(s, i).len() >= 1,
        lexemes(s, i)[0] == (Lexeme { kind: TokenKind::Decimal, text_start: i, text_end: e, start: i, end: e + 1, value: 0 }),
        lexemes(s, i).drop_first() == lexemes(s, e + 1),
{
    lemma_digit_run(s, p, q);
    if q < e {
        lemma_digit_run(s, q + 1, e);
    }
    assert(is_digit(s[p]));
    assert(scan(s, i) == Scan::Tok(TokenKind::Decimal, i, e, e + 1 - i, 0));
    let l = Lexeme { kind: TokenKind::Decimal, text_start: i, text_end: e, start: i, end: e + 1, value: 0 };
    assert(lexemes(s, i) == seq![l] + lexemes(s, e + 1));
    assert((seq![l] + lexemes(s, e + 1)).drop_first() =~= lexemes(s, e + 1));
}

/// A literal `-?[0-9]+` at `i` (digits from `p` to `q`) that no `.` and
/// digit, and no `d`, follows is one `Integer` token spanning it, carrying
/// its value when that fits an `i64`.
pub proof fn lemma_integer_literal(s: Seq<char>, i: int, p: int, q: int)
    requires
        0 <= i,
        p == i || (p == i + 1 && s[i] == '-'),
        p < q <= s.len(),
        forall|k: int| p <= k < q ==> is_digit(#[trigger] s[k]),
        q == s.len() || !is_digit(s[q]),
        !at(s, q, 'd'),
        !(at(s, q, '.') && at_class(s, q + 1, CharClass::Digit)),
        i64::MIN <= int_value(s, i, q) <= i64::MAX,
    ensures
        lexemes(s, i).len() >= 1,
        lexemes(s, i)[0] == (Lexeme {
            kind: TokenKind::Integer,
            text_start: i,
            text_end: q,
            start: i,
            end: q,
            value: int_value(s, i, q),
        }),
        lexemes(s, i).drop_first() == lexemes(s, q),
{
    lemma_digit_run(s, p, q);
    assert(is_digit(s[p]));
    if at(s, q, '.') {
        assert(run(s, q + 1, CharClass::Digit) == 0);
    }
    assert(scan(s, i) == Scan::Tok(TokenKind::Integer, i, q, q - i, int_value(s, i, q)));
    let l = Lexeme { kind: TokenKind::Integer, text_start: i, text_end: q, start: i, end: q, value: int_value(s, i, q) };
    assert(lexemes(s, i) == seq![l] + lexemes(s, q));
    assert((seq![l] + lexemes(s, q)).drop_first() =~= lexemes(s, q));
}

} // verus!
