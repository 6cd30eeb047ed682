//! Recursive-descent parser for Pure documents (`###Pure` sections with
//! classes, profiles and functions).
//!
//! Where the grammar leaves the parser stuck (a token it cannot use inside
//! a stereotype or tagged-value list) or at the end of the input in the
//! middle of such a list, the parser reports the offending token, or the
//! end of input, instead of looping or reading past the tokens.
use std::sync::Arc;
use vstd::prelude::*;
use vstd::string::*;

use crate::ast::{
    ClassDef, ClassInstance, Element, ExtensionElement, Multiplicity, PackagePath, PackageableType, ProfileDef, ProfileStereotype,
    ProfileTag, Property, SourceInfo, StereotypePtr, TaggedValue, Type,
};
use crate::lexer::{byte_pos, chars_of, lex_source, lexemes, spanned, SpannedToken, Token, TokenKind};
use crate::text::{concat, join, join_spec, seq_lt, str_eq, str_lt, string_is, views};
use crate::grammar::{
    class_shape, class_view, profile_stereotype_views, profile_tag_views, profile_view,
    property_shape, property_view, property_views, stereotype_views, tagged_value_views, unlocated,
    answers_extend, lemma_answers_insert, lemma_extend_insert, element_shape, element_views, extension_view, extension_views, ClassView, ElementView, Fail, Input, ProfileView, PropertyView, SectionAnswer,
};

verus! {

/// What went wrong while parsing.
#[derive(Debug)]
pub enum ParseError {
    /// A token that does not fit here, with its index in the token list.
    UnexpectedToken(Token, usize),
    /// The input ended where a token was expected.
    UnexpectedEof,
    /// A `###Name` section that no parser handles.
    UnknownSection(String),
    /// A construct the engine refuses, with its location.
    EngineError(String, SourceInfo),
}

/// A grammar for the `###Name` sections of one name, written by the
/// parser's users and registered with a `PluginRegistry`.
pub trait SectionPlugin {
    /// The section name this plugin parses.
    fn section_name(&self) -> &str;

    /// Parses the section whose first token (after its header) is at
    /// `*pos`, moving `*pos` past the section; `island_types` are the
    /// registered island types.
    fn parse_section(
        &self,
        tokens: &[SpannedToken],
        pos: &mut usize,
        source: &str,
        island_types: &[String],
    ) -> (r: Result<Vec<ExtensionElement>, ParseError>)
        requires
            *old(pos) <= tokens@.len(),
        ensures
            r is Ok ==> *old(pos) <= *final(pos) <= tokens@.len(),
    ;
}

/// A grammar for the islands `#type{...}#` of one type, written by the
/// parser's users.
pub trait IslandPlugin {
    /// The island type this plugin parses, as text.
    spec fn island_text(&self) -> Seq<char>;

    /// The island type this plugin parses.
    fn island_type(&self) -> (r: &str)
        ensures
            r@ == self.island_text(),
    ;

    /// Parses the content of an island found at `source_info`.
    fn parse(&self, content: &str, source_info: SourceInfo) -> Result<ClassInstance, ParseError>;
}

/// What kind of value a sub-parser reads.
#[derive(Debug, Clone, Copy, PartialEq, Eq, Structural)]
pub enum SubParserCategory {
    ConnectionValue,
    MappingElement,
    MappingInclude,
    EmbeddedData,
    TestAssertion,
}

/// The grammars the parser may meet: island types (inside function
/// bodies) and section plugins.
pub struct PluginRegistry {
    pub island_plugins: Vec<String>,
    /// The section plugins, each under the section name it registered
    /// with.
    pub section_plugins: Vec<(String, Box<dyn SectionPlugin>)>,
}

impl PluginRegistry {
    /// A registry with no plugins.
    pub fn new() -> (r: PluginRegistry)
        ensures
            r.island_plugins@.len() == 0,
            r.section_plugins@.len() == 0,
    {
        PluginRegistry { island_plugins: Vec::new(), section_plugins: Vec::new() }
    }

    /// Registers an island grammar under its island type.
    pub fn register_island(&mut self, plugin: &dyn IslandPlugin)
        ensures
            final(self).island_plugins@.len() == old(self).island_plugins@.len() + 1,
            final(self).island_plugins@.drop_last() == old(self).island_plugins@,
            final(self).island_plugins@.last()@ == plugin.island_text(),
            final(self).section_plugins@ == old(self).section_plugins@,
    {
        let name = plugin.island_type().to_string();
        self.island_plugins.push(name);
    }

    /// Registers a section plugin under its section name (after those
    /// already registered).
    pub fn register_section(&mut self, plugin: Box<dyn SectionPlugin>)
        ensures
            final(self).section_plugins@.len() == old(self).section_plugins@.len() + 1,
            final(self).section_plugins@.drop_last() == old(self).section_plugins@,
            final(self).section_plugins@.last().1 == plugin,
            final(self).island_plugins@ == old(self).island_plugins@,
    {
        let name = plugin.section_name().to_string();
        let ghost before = self.section_plugins@;
        let entry = (name, plugin);
        self.section_plugins.push(entry);
        proof {
            assert(self.section_plugins@ == before.push(entry));
            assert(self.section_plugins@.drop_last() =~= before);
        }
    }

    /// The first registered section plugin for sections named `name`.
    pub fn find_section_plugin(&self, name: &str) -> (r: Option<usize>)
        ensures
            match r {
                Some(k) => k < self.section_plugins@.len() && self.section_plugins@[k as int].0@ == name@,
                None => forall|k: int|
                    0 <= k < self.section_plugins@.len() ==> (#[trigger] self.section_plugins@[k]).0@ != name@,
            },
    {
        let mut k: usize = 0;
        while k < self.section_plugins.len()
            invariant
                k <= self.section_plugins@.len(),
                forall|j: int| 0 <= j < k ==> (#[trigger] self.section_plugins@[j]).0@ != name@,
            decreases self.section_plugins.len() - k,
        {
            if str_eq(self.section_plugins[k].0.as_str(), name) {
                return Some(k);
            }
            k = k + 1;
        }
        None
    }

    /// Whether an island type is registered.
    pub open spec fn has_island(&self, name: Seq<char>) -> bool {
        exists|k: int| 0 <= k < self.island_plugins@.len() && #[trigger] self.island_plugins@[k]@ == name
    }

    /// Whether an island type is registered.
    pub fn contains_island(&self, name: &str) -> (b: bool)
        ensures
            b == self.has_island(name@),
    {
        let mut k: usize = 0;
        while k < self.island_plugins.len()
            invariant
                k <= self.island_plugins@.len(),
                forall|j: int| 0 <= j < k ==> self.island_plugins@[j]@ != name@,
            decreases self.island_plugins.len() - k,
        {
            if string_is(self.island_plugins[k].as_str(), chars_of(name)) {
                return true;
            }
            k = k + 1;
        }
        false
    }

    /// `a` lists the registered island types in ascending order.
    pub open spec fn sorted_arrangement(&self, a: Seq<String>) -> bool {
        &&& a.len() == self.island_plugins@.len()
        &&& forall|x: int, y: int| 0 <= x < y < a.len() ==> !seq_lt(a[y]@, a[x]@)
        &&& views(a).to_multiset() == views(self.island_plugins@).to_multiset()
    }

    /// The registered island types, in ascending order.
    pub fn sorted_islands(&self) -> (r: Vec<String>)
        ensures
            self.sorted_arrangement(r@),
    {
        let mut out: Vec<String> = Vec::new();
        let mut k: usize = 0;
        proof {
            assert(views(out@) =~= Seq::<Seq<char>>::empty());
            assert(views(self.island_plugins@.take(0)) =~= Seq::<Seq<char>>::empty());
        }
        while k < self.island_plugins.len()
            invariant
                k <= self.island_plugins@.len(),
                out@.len() == k,
                forall|a: int, b: int| 0 <= a < b < out@.len() ==> !seq_lt(out@[b]@, out@[a]@),
                views(out@).to_multiset() == views(self.island_plugins@.take(k as int)).to_multiset(),
            decreases self.island_plugins.len() - k,
        {
            let item = self.island_plugins[k].clone();
            // Insertion point: after every element not greater than `item`.
            let mut p: usize = out.len();
            while p > 0 && str_lt(item.as_str(), out[p - 1].as_str())
                invariant
                    p <= out@.len(),
                    forall|j: int| p <= j < out@.len() ==> seq_lt(item@, out@[j]@),
                decreases p,
            {
                p = p - 1;
            }
            proof {
                lemma_seq_lt_facts();
            }
            let ghost before = out@;
            out.insert(p, item);
            proof {
                broadcast use vstd::multiset::group_multiset_axioms;
                let vv = views(before);
                let ww = vv.insert(p as int, item@);
                assert(views(out@) =~= ww);
                vv.insert_ensures(p as int, item@);
                assert(ww.remove(p as int) =~= vv);
                ww.to_multiset_ensures();
                assert(ww.contains(item@)) by {
                    assert(ww[p as int] == item@);
                }
                assert(ww.to_multiset() =~= vv.to_multiset().insert(item@));
                let tk = views(self.island_plugins@.take(k as int));
                assert(views(self.island_plugins@.take(k + 1)) =~= tk.push(item@));
                tk.to_multiset_ensures();
                assert forall|a: int, b: int| 0 <= a < b < out@.len() implies !seq_lt(
                    out@[b]@,
                    out@[a]@,
                ) by {
                    if a < p && b == p {
                        if p > 0 && a < p - 1 {
                            assert(!seq_lt(before[p - 1]@, before[a]@));
                        }
                    }
                }
            }
            k = k + 1;
        }
        assert(self.island_plugins@.take(self.island_plugins@.len() as int) =~= self.island_plugins@);
        out
    }
}

/// `seq_lt` is a strict total order.
pub proof fn lemma_seq_lt_facts()
    ensures
        forall|a: Seq<char>, b: Seq<char>, c: Seq<char>|
            seq_lt(a, b) && seq_lt(b, c) ==> seq_lt(a, c),
        forall|a: Seq<char>, b: Seq<char>| !(seq_lt(a, b) && seq_lt(b, a)),
        forall|a: Seq<char>, b: Seq<char>| a != b ==> seq_lt(a, b) || seq_lt(b, a),
{
    assert forall|a: Seq<char>, b: Seq<char>, c: Seq<char>|
        seq_lt(a, b) && seq_lt(b, c) implies seq_lt(a, c) by {
        lemma_seq_lt_trans(a, b, c);
    }
    assert forall|a: Seq<char>, b: Seq<char>| !(seq_lt(a, b) && seq_lt(b, a)) by {
        lemma_seq_lt_asym(a, b);
    }
    assert forall|a: Seq<char>, b: Seq<char>| a != b implies seq_lt(a, b) || seq_lt(b, a) by {
        lemma_seq_lt_total(a, b);
    }
}

proof fn lemma_seq_lt_trans(a: Seq<char>, b: Seq<char>, c: Seq<char>)
    requires
        seq_lt(a, b),
        seq_lt(b, c),
    ensures
        seq_lt(a, c),
    decreases a.len(),
{
    if a.len() > 0 && b.len() > 0 && c.len() > 0 && a[0] == b[0] && b[0] == c[0] {
        lemma_seq_lt_trans(a.drop_first(), b.drop_first(), c.drop_first());
    }
}

proof fn lemma_seq_lt_asym(a: Seq<char>, b: Seq<char>)
    ensures
        !(seq_lt(a, b) && seq_lt(b, a)),
    decreases a.len(),
{
    if a.len() > 0 && b.len() > 0 && a[0] == b[0] {
        lemma_seq_lt_asym(a.drop_first(), b.drop_first());
    }
}

proof fn lemma_seq_lt_total(a: Seq<char>, b: Seq<char>)
    requires
        a != b,
    ensures
        seq_lt(a, b) || seq_lt(b, a),
    decreases a.len(),
{
    if a.len() == 0 {
        assert(b.len() > 0) by {
            if b.len() == 0 {
                assert(a =~= b);
            }
        }
    } else if b.len() == 0 {
    } else if a[0] != b[0] {
        vstd::utf8::char_u32_cast(a[0], a[0] as u32);
        vstd::utf8::char_u32_cast(b[0], b[0] as u32);
    } else {
        if a.drop_first() == b.drop_first() {
            assert(a =~= seq![a[0]] + a.drop_first());
            assert(b =~= seq![b[0]] + b.drop_first());
        }
        lemma_seq_lt_total(a.drop_first(), b.drop_first());
    }
}

/// The parser: the tokens of one source text and a position among them.
pub struct Parser<'a> {
    source: &'a str,
    tokens: Vec<SpannedToken>,
    pos: usize,
    registry: Arc<PluginRegistry>,
}

impl<'a> Parser<'a> {
    #[verifier::type_invariant]
    spec fn inv(self) -> bool {
        self.pos <= self.tokens@.len()
    }

    /// The tokens being parsed.
    pub closed spec fn toks(&self) -> Seq<Token> {
        self.tokens@.map_values(|t: SpannedToken| t.token)
    }

    /// The tokens with their locations.
    pub closed spec fn spanned(&self) -> Seq<SpannedToken> {
        self.tokens@
    }

    /// The index of the next token to read.
    pub closed spec fn position(&self) -> int {
        self.pos as int
    }

    /// The plugins this parser consults.
    pub closed spec fn plugins(&self) -> PluginRegistry {
        *self.registry
    }

    /// What the grammar reads: the tokens, their locations and the
    /// plugins.
    pub open spec fn input(&self) -> Input {
        Input { toks: self.toks(), spanned: self.spanned(), plugins: self.plugins() }
    }

    /// The kind of token `j`.
    pub open spec fn kind_at(&self, j: int) -> TokenKind {
        self.input().kind_at(j)
    }

    /// Whether token `j` exists and is of kind `k`.
    pub open spec fn is_at(&self, j: int, k: TokenKind) -> bool {
        self.input().is_at(j, k)
    }

    /// Same tokens and registry: only the position may differ.
    pub open spec fn same_input(&self, other: &Parser<'a>) -> bool {
        &&& self.spanned() == other.spanned()
        &&& self.toks() == other.toks()
        &&& self.plugins() == other.plugins()
    }

    /// A parser over the tokens of `source`.
    pub fn new(source_id: &str, source: &'a str, registry: Arc<PluginRegistry>) -> (r: Parser<'a>)
        requires
            byte_pos(source@, source@.len() as int) < usize::MAX,
        ensures
            r.position() == 0,
            r.plugins() == *registry,
            r.spanned().len() == lexemes(source@, 0).len(),
            forall|k: int|
                0 <= k < r.spanned().len() ==> spanned(
                    r.spanned()[k],
                    source_id@,
                    source@,
                    #[trigger] lexemes(source@, 0)[k],
                ),
    {
        Parser { source, tokens: lex_source(source_id, source), pos: 0, registry }
    }

    /// Positions are never negative.
    pub(crate) proof fn lemma_position(&self)
        ensures
            self.position() >= 0,
    {
    }

    proof fn lemma_toks(&self)
        ensures
            self.toks().len() == self.tokens@.len(),
            forall|j: int| 0 <= j < self.tokens@.len() ==> #[trigger] self.toks()[j] == self.tokens@[j].token,
    {
    }

    /// Whether the token at the current position is of kind `k`.
    pub fn at_kind(&self, k: TokenKind) -> (b: bool)
        ensures
            b == self.is_at(self.position(), k),
    {
        proof {
            self.lemma_toks();
            use_type_invariant(self);
        }
        self.pos < self.tokens.len() && self.tokens[self.pos].token.kind() == k
    }

    /// Whether token `j` is of kind `k`.
    fn kind_is(&self, j: usize, k: TokenKind) -> (b: bool)
        ensures
            b == self.is_at(j as int, k),
    {
        proof {
            self.lemma_toks();
        }
        j < self.tokens.len() && self.tokens[j].token.kind() == k
    }

    /// The error for the token at `j`.
    fn unexpected(&self, j: usize) -> (e: ParseError)
        requires
            j < self.toks().len(),
        ensures
            e == ParseError::UnexpectedToken(self.toks()[j as int], j),
    {
        proof {
            self.lemma_toks();
        }
        ParseError::UnexpectedToken(self.tokens[j].token.duplicate(), j)
    }

    /// Whether tokens are left to read.
    pub(crate) fn has_more(&self) -> (b: bool)
        ensures
            b == (self.position() < self.toks().len()),
            self.position() <= self.toks().len(),
    {
        proof {
            self.lemma_toks();
            use_type_invariant(self);
        }
        self.pos < self.tokens.len()
    }

    /// The index of the next token to read.
    pub(crate) fn current(&self) -> (p: usize)
        ensures
            p == self.position(),
            p <= self.toks().len(),
    {
        proof {
            self.lemma_toks();
            use_type_invariant(self);
        }
        self.pos
    }

    /// A copy of token `j`.
    pub(crate) fn token_at(&self, j: usize) -> (t: Token)
        requires
            j < self.toks().len(),
        ensures
            t == self.toks()[j as int],
    {
        proof {
            self.lemma_toks();
        }
        self.tokens[j].token.duplicate()
    }

    /// The kind of token `j`.
    pub(crate) fn kind_of(&self, j: usize) -> (k: TokenKind)
        requires
            j < self.toks().len(),
        ensures
            k == self.kind_at(j as int),
    {
        proof {
            self.lemma_toks();
        }
        self.tokens[j].token.kind()
    }

    /// Moves past the next token.
    pub(crate) fn step(&mut self)
        requires
            old(self).position() < old(self).toks().len(),
        ensures
            final(self).same_input(old(self)),
            final(self).position() == old(self).position() + 1,
    {
        proof {
            self.lemma_toks();
        }
        assert(self.pos < self.tokens.len());
        self.pos = self.pos + 1;
    }

    /// Consumes the next token if it is of kind `expected`.
    pub fn expect_token(&mut self, expected: TokenKind) -> (r: Result<(), ParseError>)
        ensures
            final(self).advanced(old(self)),
            old(self).position() >= old(self).toks().len() ==> r == Err::<(), ParseError>(
                ParseError::UnexpectedEof,
            ) && final(self).position() == old(self).position(),
            old(self).is_at(old(self).position(), expected) ==> r is Ok && final(self).position()
                == old(self).position() + 1,
            old(self).position() < old(self).toks().len() && !old(self).is_at(
                old(self).position(),
                expected,
            ) ==> r == Err::<(), ParseError>(
                ParseError::UnexpectedToken(
                    old(self).toks()[old(self).position()],
                    old(self).position() as usize,
                ),
            ) && final(self).position() == old(self).position(),
    {
        proof {
            use_type_invariant(&*self);
            self.lemma_toks();
        }
        if self.pos >= self.tokens.len() {
            return Err(ParseError::UnexpectedEof);
        }
        if self.tokens[self.pos].token.kind() == expected {
            self.pos = self.pos + 1;
            Ok(())
        } else {
            Err(self.unexpected(self.pos))
        }
    }

    /// Advances past the next token of kind `k` (or to the end if there is
    /// none).
    pub fn skip_until(&mut self, k: TokenKind) -> (r: Result<(), ParseError>)
        ensures
            final(self).advanced(old(self)),
            r is Ok,
            old(self).position() < final(self).position() <= final(self).toks().len() || (old(
                self,
            ).position() == final(self).position() == final(self).toks().len()),
            final(self).position() < final(self).toks().len() ==> final(self).is_at(
                final(self).position() - 1,
                k,
            ),
            forall|j: int|
                old(self).position() <= j < final(self).position() - 1 ==> !old(self).is_at(j, k),
            final(self).position() == old(self).input().after_next(old(self).position(), k),
    {
        proof {
            use_type_invariant(&*self);
        }
        while self.pos < self.tokens.len()
            invariant
                self.same_input(old(self)),
                old(self).position() <= self.position() <= self.toks().len(),
                forall|j: int| old(self).position() <= j < self.position() ==> !old(self).is_at(j, k),
                old(self).input().first_from(old(self).position(), k) == old(self).input().first_from(
                    self.position(),
                    k,
                ),
            decreases self.tokens.len() - self.pos,
        {
            proof {
                self.lemma_toks();
            }
            if self.tokens[self.pos].token.kind() == k {
                self.pos = self.pos + 1;
                return Ok(());
            }
            self.pos = self.pos + 1;
        }
        Ok(())
    }

    /// Index of the first token of kind `k` at or after `j` (the number of
    /// tokens if there is none).
    pub open spec fn first_from(&self, j: int, k: TokenKind) -> int {
        self.input().first_from(j, k)
    }

    /// `first_from(j, k)`, computed.
    fn find_kind(&self, j: usize, k: TokenKind) -> (r: usize)
        requires
            j <= self.toks().len(),
        ensures
            r == self.first_from(j as int, k),
            j <= r <= self.toks().len(),
    {
        proof {
            self.lemma_toks();
        }
        let mut t = j;
        while t < self.tokens.len() && self.tokens[t].token.kind() != k
            invariant
                j <= t <= self.tokens@.len(),
                self.toks().len() == self.tokens@.len(),
                self.first_from(j as int, k) == self.first_from(t as int, k),
            decreases self.tokens.len() - t,
        {
            t = t + 1;
        }
        t
    }

    /// The location of token `j`.
    fn info_at(&self, j: usize) -> (r: SourceInfo)
        requires
            j < self.spanned().len(),
        ensures
            r == self.spanned()[j as int].source_info,
    {
        self.tokens[j].source_info.duplicate()
    }

    /// Rejects type or multiplicity parameters (`<...>`) at the current
    /// position.
    fn check_type_parameters(&mut self) -> (r: Result<(), ParseError>)
        ensures
            final(self).advanced(old(self)),
            final(self).position() == old(self).position(),
            r is Err <==> old(self).is_at(old(self).position(), TokenKind::Lt),
            r is Err ==> is_engine_error(
                r->Err_0,
                type_params_message(),
                joined_info(
                    old(self).spanned()[old(self).position()].source_info,
                    old(self).end_info_of_first(old(self).position(), TokenKind::Gt),
                ),
            ),
    {
        proof {
            use_type_invariant(&*self);
        }
        if self.kind_is(self.pos, TokenKind::Lt) {
            return Err(self.type_params_error(self.pos));
        }
        Ok(())
    }

    /// The location of the first token of kind `k` at or after `j`, or of
    /// token `j` itself if there is none.
    pub open spec fn end_info_of_first(&self, j: int, k: TokenKind) -> SourceInfo {
        self.input().end_info_of_first(j, k)
    }

    /// The error for type or multiplicity parameters opened at token `j`.
    fn type_params_error(&self, j: usize) -> (e: ParseError)
        requires
            j < self.spanned().len(),
        ensures
            is_engine_error(
                e,
                type_params_message(),
                joined_info(
                    self.spanned()[j as int].source_info,
                    self.end_info_of_first(j as int, TokenKind::Gt),
                ),
            ),
    {
        proof {
            self.lemma_toks();
        }
        let lt_info = self.info_at(j);
        let t = self.find_kind(j, TokenKind::Gt);
        let end_info = if t < self.tokens.len() {
            self.info_at(t)
        } else {
            lt_info.duplicate()
        };
        ParseError::EngineError(type_params_text(), join_info(&lt_info, &end_info))
    }

    /// Parses `extends A, B` up to the class body: every identifier-like
    /// token before the next `{` becomes a super type.
    fn parse_optional_extends(&mut self) -> (r: Result<Vec<Type>, ParseError>)
        ensures
            final(self).advanced(old(self)),
            r is Ok,
            !old(self).is_at(old(self).position(), TokenKind::KeywordExtends) ==> final(self).position()
                == old(self).position() && r.unwrap()@.len() == 0,
            type_views(r->Ok_0@) == old(self).input().extends_at(old(self).position()).0,
            final(self).position() == old(self).input().extends_at(old(self).position()).1,
            old(self).is_at(old(self).position(), TokenKind::KeywordExtends) ==> {
                &&& final(self).position() == old(self).first_from(
                    old(self).position() + 1,
                    TokenKind::LBrace,
                )
                &&& type_views(r.unwrap()@) == old(self).super_types_in(
                    old(self).position() + 1,
                    final(self).position(),
                )
            },
    {
        proof {
            use_type_invariant(&*self);
            self.lemma_toks();
        }
        let mut super_types: Vec<Type> = Vec::new();
        if self.at_kind(TokenKind::KeywordExtends) {
            assert(self.pos < self.tokens.len());
            self.pos = self.pos + 1;
            let ghost start = self.pos as int;
            proof {
                assert(type_views(super_types@) =~= old(self).super_types_in(start, start));
            }
            while self.pos < self.tokens.len() && self.tokens[self.pos].token.kind()
                != TokenKind::LBrace
                invariant
                    self.same_input(old(self)),
                    self.toks() == old(self).toks(),
                    self.toks().len() == self.tokens@.len(),
                    start <= self.pos <= self.tokens@.len(),
                    old(self).first_from(start, TokenKind::LBrace) == old(self).first_from(
                        self.pos as int,
                        TokenKind::LBrace,
                    ),
                    type_views(super_types@) == old(self).super_types_in(start, self.pos as int),
                    forall|j: int| start <= j < self.pos ==> old(self).kind_at(j) != TokenKind::LBrace,
                decreases self.tokens.len() - self.pos,
            {
                proof {
                    self.lemma_toks();
                }
                match self.tokens[self.pos].token.as_ident() {
                    Some(id) => {
                        let id_info = self.info_at(self.pos);
                        super_types.push(
                            Type::Packageable(PackageableType { full_path: id, source_info: id_info }),
                        );
                    },
                    None => {},
                }
                proof {
                    assert(type_views(super_types@) =~= old(self).super_types_in(start, self.pos + 1));
                }
                self.pos = self.pos + 1;
            }
        }
        Ok(super_types)
    }

    /// The position moved forward (or stayed) over the same input.
    pub open spec fn advanced(&self, old: &Parser<'a>) -> bool {
        &&& self.same_input(old)
        &&& old.position() <= self.position() <= self.toks().len()
    }

    /// The text of token `j` if it is an identifier.
    fn ident_at(&self, j: usize) -> (r: Option<String>)
        ensures
            r.is_some() == (j < self.toks().len() && self.toks()[j as int] is Ident),
            r.is_some() ==> self.toks()[j as int] == Token::Ident(r.unwrap()),
    {
        proof {
            self.lemma_toks();
        }
        if j < self.tokens.len() {
            match &self.tokens[j].token {
                Token::Ident(p) => Some(p.clone()),
                _ => None,
            }
        } else {
            None
        }
    }

    /// The text of token `j` if it is a string literal.
    fn string_at(&self, j: usize) -> (r: Option<String>)
        ensures
            r.is_some() == (j < self.toks().len() && self.toks()[j as int] is StringLit),
            r.is_some() ==> self.toks()[j as int] == Token::StringLit(r.unwrap()),
    {
        proof {
            self.lemma_toks();
        }
        if j < self.tokens.len() {
            match &self.tokens[j].token {
                Token::StringLit(p) => Some(p.clone()),
                _ => None,
            }
        } else {
            None
        }
    }

    /// The name an identifier-like token `j` reads as.
    fn name_at(&self, j: usize) -> (r: Option<String>)
        requires
            j < self.toks().len(),
        ensures
            r.is_some() == self.toks()[j as int].ident_text().is_some(),
            r.is_some() ==> r.unwrap()@ == self.toks()[j as int].ident_text().unwrap(),
    {
        proof {
            self.lemma_toks();
        }
        self.tokens[j].token.as_ident()
    }

    /// Parses an optional stereotype list `<<profile.value, ...>>`.
    fn parse_optional_stereotypes(&mut self) -> (r: Result<Vec<StereotypePtr>, ParseError>)
        ensures
            final(self).advanced(old(self)),
            match old(self).input().stereotypes_at(old(self).position()) {
                Ok((sv, q)) => r is Ok && stereotype_views(r->Ok_0@) == sv && unlocated(r->Ok_0@, Seq::empty())
                    && final(self).position() == q,
                Err(f) => r is Err && old(self).input().fails_with(r->Err_0, f),
            },
    {
        proof {
            use_type_invariant(&*self);
            self.lemma_toks();
        }
        let mut st: Vec<StereotypePtr> = Vec::new();
        proof {
            assert(stereotype_views(st@) =~= Seq::<(Seq<char>, Seq<char>)>::empty());
        }
        if self.at_kind(TokenKind::LDoubleAngle) {
            assert(self.pos < self.tokens.len());
            self.pos = self.pos + 1;
            while self.pos < self.tokens.len() && self.tokens[self.pos].token.kind()
                != TokenKind::RDoubleAngle
                invariant
                    self.advanced(old(self)),
                    self.toks().len() == self.tokens@.len(),
                    self.pos > old(self).pos,
                    unlocated(st@, Seq::empty()),
                    old(self).input().stereotypes_at(old(self).position()) == old(self).input().stereotype_list(
                        self.position(),
                        stereotype_views(st@),
                    ),
                decreases self.tokens.len() - self.pos,
            {
                let start = self.pos;
                let ghost acc = stereotype_views(st@);
                match self.ident_at(self.pos) {
                    Some(prof_str) => {
                        self.pos = self.pos + 1;
                        if self.at_kind(TokenKind::Dot) {
                            self.pos = self.pos + 1;
                            if self.pos >= self.tokens.len() {
                                return Err(ParseError::UnexpectedEof);
                            }
                            match self.ident_at(self.pos) {
                                Some(val_str) => {
                                    let sp = StereotypePtr {
                                        profile: prof_str,
                                        value: val_str,
                                        profile_source_info: SourceInfo::dummy(),
                                        source_info: SourceInfo::dummy(),
                                    };
                                    st.push(sp);
                                    proof {
                                        assert(stereotype_views(st@) =~= acc.push((prof_str@, val_str@)));
                                    }
                                    self.pos = self.pos + 1;
                                },
                                None => {},
                            }
                        }
                    },
                    None => {},
                }
                proof {
                    assert(old(self).input().stereotype_item(start as int, acc) == Ok::<
                        (Seq<(Seq<char>, Seq<char>)>, int),
                        Fail,
                    >((stereotype_views(st@), self.position())));
                }
                if self.at_kind(TokenKind::Comma) {
                    self.pos = self.pos + 1;
                }
                if self.pos == start {
                    return Err(self.unexpected(self.pos));
                }
            }
            self.expect_token(TokenKind::RDoubleAngle)?;
        }
        Ok(st)
    }

    /// Parses an optional tagged-value list `{profile.tag = 'value', ...}`;
    /// a `{` not followed by `Ident .` is left for the caller.
    fn parse_optional_tagged_values(&mut self) -> (r: Result<Vec<TaggedValue>, ParseError>)
        ensures
            final(self).advanced(old(self)),
            match old(self).input().tagged_values_at(old(self).position()) {
                Ok((tv, q)) => r is Ok && tagged_value_views(r->Ok_0@) == tv && unlocated(Seq::empty(), r->Ok_0@)
                    && final(self).position() == q,
                Err(f) => r is Err && old(self).input().fails_with(r->Err_0, f),
            },
    {
        proof {
            use_type_invariant(&*self);
            self.lemma_toks();
        }
        let mut tv: Vec<TaggedValue> = Vec::new();
        proof {
            assert(tagged_value_views(tv@) =~= Seq::<(Seq<char>, Seq<char>, Seq<char>)>::empty());
        }
        if self.at_kind(TokenKind::LBrace) && self.tokens.len() - self.pos > 2 && self.ident_at(
            self.pos + 1,
        ).is_some() && self.kind_is(self.pos + 2, TokenKind::Dot) {
            self.pos = self.pos + 1;
            while self.pos < self.tokens.len() && self.tokens[self.pos].token.kind()
                != TokenKind::RBrace
                invariant
                    self.advanced(old(self)),
                    self.toks().len() == self.tokens@.len(),
                    self.pos > old(self).pos,
                    unlocated(Seq::empty(), tv@),
                    old(self).input().tagged_values_at(old(self).position()) == old(self).input().tagged_value_list(
                        self.position(),
                        tagged_value_views(tv@),
                    ),
                decreases self.tokens.len() - self.pos,
            {
                let start = self.pos;
                let ghost acc = tagged_value_views(tv@);
                match self.ident_at(self.pos) {
                    Some(prof_str) => {
                        self.pos = self.pos + 1;
                        if self.expect_token(TokenKind::Dot).is_ok() {
                            if self.pos >= self.tokens.len() {
                                return Err(ParseError::UnexpectedEof);
                            }
                            match self.ident_at(self.pos) {
                                Some(tag_str) => {
                                    self.pos = self.pos + 1;
                                    if self.expect_token(TokenKind::Eq).is_ok() {
                                        if self.pos >= self.tokens.len() {
                                            return Err(ParseError::UnexpectedEof);
                                        }
                                        match self.string_at(self.pos) {
                                            Some(val_str) => {
                                                let t = TaggedValue {
                                                    profile: prof_str,
                                                    profile_source_info: SourceInfo::dummy(),
                                                    tag: tag_str,
                                                    value: val_str,
                                                    source_info: SourceInfo::dummy(),
                                                };
                                                tv.push(t);
                                                proof {
                                                    assert(tagged_value_views(tv@) =~= acc.push(
                                                        (prof_str@, tag_str@, val_str@),
                                                    ));
                                                }
                                                self.pos = self.pos + 1;
                                            },
                                            None => {},
                                        }
                                    }
                                },
                                None => {},
                            }
                        }
                    },
                    None => {},
                }
                proof {
                    assert(old(self).input().tagged_value_item(start as int, acc) == Ok::<
                        (Seq<(Seq<char>, Seq<char>, Seq<char>)>, int),
                        Fail,
                    >((tagged_value_views(tv@), self.position())));
                }
                if self.at_kind(TokenKind::Comma) {
                    self.pos = self.pos + 1;
                }
                if self.pos == start {
                    return Err(self.unexpected(self.pos));
                }
            }
            self.expect_token(TokenKind::RBrace)?;
        }
        Ok(tv)
    }

    /// A `{` at `j` followed by `Ident .`.
    pub open spec fn opens_tagged_values(&self, j: int) -> bool {
        self.input().opens_tagged_values(j)
    }

    /// Parses a property `name : path::Type [multiplicity];` (the
    /// multiplicity is read as `[1]`).
    fn parse_property(&mut self) -> (r: Result<Property, ParseError>)
        ensures
            final(self).advanced(old(self)),
            r is Ok ==> final(self).position() > old(self).position(),
            match old(self).input().property_at(old(self).position()) {
                Ok((pv, q)) => r is Ok && property_view(r->Ok_0) == pv && property_shape(r->Ok_0)
                    && final(self).position() == q,
                Err(f) => r is Err && old(self).input().fails_with(r->Err_0, f),
            },
    {
        proof {
            use_type_invariant(&*self);
        }
        let stereotypes = self.parse_optional_stereotypes()?;
        let tagged_values = self.parse_optional_tagged_values()?;
        proof {
            use_type_invariant(&*self);
            self.lemma_toks();
        }
        if self.pos >= self.tokens.len() {
            return Err(ParseError::UnexpectedEof);
        }
        let name = match self.name_at(self.pos) {
            Some(id) => id,
            None => {
                return Err(self.unexpected(self.pos));
            },
        };
        self.pos = self.pos + 1;
        self.expect_token(TokenKind::Colon)?;
        let ghost p3 = self.position();
        let mut type_path: Vec<String> = Vec::new();
        proof {
            assert(views(type_path@) =~= Seq::<Seq<char>>::empty());
        }
        while self.pos < self.tokens.len()
            invariant_except_break
                old(self).input().type_path(p3, Seq::empty()) == old(self).input().type_path(
                    self.position(),
                    views(type_path@),
                ),
            invariant
                self.advanced(old(self)),
                self.toks().len() == self.tokens@.len(),
                self.pos > old(self).pos,
            ensures
                self.advanced(old(self)),
                self.toks().len() == self.tokens@.len(),
                self.pos > old(self).pos,
                old(self).input().type_path(p3, Seq::empty()) == (views(type_path@), self.position()),
            decreases self.tokens.len() - self.pos,
        {
            let ghost before = views(type_path@);
            match self.name_at(self.pos) {
                Some(id) => {
                    if self.tokens.len() - self.pos > 1 && self.kind_is(
                        self.pos + 1,
                        TokenKind::PathSep,
                    ) {
                        type_path.push(id);
                        proof {
                            assert(views(type_path@) =~= before.push(id@));
                        }
                        self.pos = self.pos + 2;
                    } else {
                        type_path.push(id);
                        proof {
                            assert(views(type_path@) =~= before.push(id@));
                        }
                        self.pos = self.pos + 1;
                        break ;
                    }
                },
                None => {
                    break ;
                },
            }
        }
        self.expect_token(TokenKind::LBracket)?;
        let ghost p5 = self.position();
        while self.pos < self.tokens.len() && self.tokens[self.pos].token.kind()
            != TokenKind::RBracket
            invariant
                self.advanced(old(self)),
                self.toks().len() == self.tokens@.len(),
                self.pos > old(self).pos,
                p5 <= self.position(),
                old(self).input().first_from(p5, TokenKind::RBracket) == old(self).input().first_from(
                    self.position(),
                    TokenKind::RBracket,
                ),
            decreases self.tokens.len() - self.pos,
        {
            self.pos = self.pos + 1;
        }
        self.expect_token(TokenKind::RBracket)?;
        self.expect_token(TokenKind::Semi)?;
        Ok(
            Property {
                name,
                property_type: Type::Packageable(
                    PackageableType {
                        full_path: join(&type_path, "::"),
                        source_info: SourceInfo::dummy(),
                    },
                ),
                multiplicity: Multiplicity::pure_one(),
                stereotypes,
                tagged_values,
                source_info: SourceInfo::dummy(),
            },
        )
    }

    /// Parses a qualified name `a::b::Name`: the package segments and the
    /// name.
    fn parse_qualified_name(&mut self) -> (r: Result<(Vec<String>, String), ParseError>)
        ensures
            final(self).advanced(old(self)),
            match old(self).input().qualified_name(old(self).position(), Seq::empty()) {
                Ok((path, name, q)) => r is Ok && views(r->Ok_0.0@) == path && r->Ok_0.1@ == name
                    && final(self).position() == q,
                Err(f) => r is Err && old(self).input().fails_with(r->Err_0, f),
            },
    {
        proof {
            use_type_invariant(&*self);
            self.lemma_toks();
        }
        let mut pkg_path: Vec<String> = Vec::new();
        let mut name = String::new();
        proof {
            assert(views(pkg_path@) =~= Seq::<Seq<char>>::empty());
        }
        while self.pos < self.tokens.len()
            invariant
                self.advanced(old(self)),
                self.toks().len() == self.tokens@.len(),
                name@ == Seq::<char>::empty(),
                old(self).input().qualified_name(old(self).position(), Seq::empty()) == old(self).input().qualified_name(
                    self.position(),
                    views(pkg_path@),
                ),
            decreases self.tokens.len() - self.pos,
        {
            match self.name_at(self.pos) {
                Some(id) => {
                    if self.tokens.len() - self.pos > 1 && self.kind_is(
                        self.pos + 1,
                        TokenKind::PathSep,
                    ) {
                        let ghost before = views(pkg_path@);
                        pkg_path.push(id);
                        proof {
                            assert(views(pkg_path@) =~= before.push(id@));
                        }
                        self.pos = self.pos + 2;
                    } else {
                        name = id;
                        self.pos = self.pos + 1;
                        return Ok((pkg_path, name));
                    }
                },
                None => {
                    return Err(self.unexpected(self.pos));
                },
            }
        }
        Ok((pkg_path, name))
    }

    /// Whether a member starting at `j` is a function (a `(` comes before
    /// any `:`).
    fn member_is_function(&self, j: usize) -> (b: bool)
        requires
            j <= self.toks().len(),
        ensures
            b == self.input().member_is_fn(j as int),
    {
        proof {
            self.lemma_toks();
        }
        let mut i = j;
        while i < self.tokens.len()
            invariant
                j <= i <= self.tokens@.len(),
                self.toks().len() == self.tokens@.len(),
                self.input().member_is_fn(j as int) == self.input().member_is_fn(i as int),
            decreases self.tokens.len() - i,
        {
            proof {
                self.lemma_toks();
            }
            let k = self.tokens[i].token.kind();
            if k == TokenKind::LParen {
                return true;
            }
            if k == TokenKind::Colon {
                return false;
            }
            i = i + 1;
        }
        false
    }

    /// Parses `Class <<st>> {tv} a::b::Name extends S { properties }`.
    fn parse_class(&mut self) -> (r: Result<ClassDef, ParseError>)
        requires
            old(self).is_at(old(self).position(), TokenKind::KeywordClass),
        ensures
            final(self).advanced(old(self)),
            r is Ok ==> final(self).position() > old(self).position(),
            match old(self).input().class_at(old(self).position()) {
                Ok((cv, q)) => r is Ok && class_view(r->Ok_0) == cv && class_shape(r->Ok_0)
                    && final(self).position() == q,
                Err(f) => r is Err && old(self).input().fails_with(r->Err_0, f),
            },
    {
        proof {
            use_type_invariant(&*self);
            self.lemma_toks();
        }
        let start_info = self.info_at(self.pos);
        assert(self.pos < self.tokens.len());
        self.pos = self.pos + 1;
        let stereotypes = self.parse_optional_stereotypes()?;
        let tagged_values = self.parse_optional_tagged_values()?;
        let (pkg_path, name) = self.parse_qualified_name()?;
        self.check_type_parameters()?;
        let super_types = self.parse_optional_extends()?;
        self.expect_token(TokenKind::LBrace)?;
        proof {
            use_type_invariant(&*self);
            self.lemma_toks();
        }
        let ghost p5 = self.position();
        let mut properties: Vec<Property> = Vec::new();
        proof {
            assert(property_views(properties@) =~= Seq::<PropertyView>::empty());
        }
        while self.pos < self.tokens.len() && self.tokens[self.pos].token.kind() != TokenKind::RBrace
            invariant
                self.advanced(old(self)),
                self.toks().len() == self.tokens@.len(),
                self.pos > old(self).pos,
                forall|i: int| 0 <= i < properties@.len() ==> property_shape(#[trigger] properties@[i]),
                old(self).input().class_body(p5, Seq::empty()) == old(self).input().class_body(
                    self.position(),
                    property_views(properties@),
                ),
                old(self).input().class_body(p5, Seq::empty()) is Err ==> old(self).input().class_at(
                    old(self).position(),
                ) == Err::<(ClassView, int), Fail>(old(self).input().class_body(p5, Seq::empty())->Err_0),
            decreases self.tokens.len() - self.pos,
        {
            proof {
                self.lemma_toks();
            }
            let k = self.tokens[self.pos].token.kind();
            if k == TokenKind::LBrace || k == TokenKind::LDoubleAngle || k == TokenKind::Ident {
                if self.member_is_function(self.pos) {
                    self.skip_until(TokenKind::Semi)?;
                } else {
                    let ghost before = property_views(properties@);
                    let ghost here = self.position();
                    let prop = match self.parse_property() {
                        Ok(p) => p,
                        Err(e) => {
                            proof {
                                assert(old(self).input().class_body(here, before) is Err);
                            }
                            return Err(e);
                        },
                    };
                    properties.push(prop);
                    proof {
                        assert(property_views(properties@) =~= before.push(property_view(prop)));
                    }
                }
                proof {
                    use_type_invariant(&*self);
                    self.lemma_toks();
                }
            } else {
                self.pos = self.pos + 1;
            }
        }
        let end_info = if self.pos < self.tokens.len() {
            self.info_at(self.pos)
        } else {
            self.info_at(self.tokens.len() - 1)
        };
        self.expect_token(TokenKind::RBrace)?;
        let source_info = join_info(&start_info, &end_info);
        Ok(
            ClassDef {
                package: PackagePath { path: pkg_path, source_info: source_info.duplicate() },
                name,
                super_types,
                properties,
                qualified_properties: Vec::new(),
                constraints: Vec::new(),
                stereotypes,
                tagged_values,
                source_info,
            },
        )
    }

    /// Parses `Profile a::b::Name { tags: [t, ...]; stereotypes: [s, ...]; }`.
    fn parse_profile(&mut self) -> (r: Result<ProfileDef, ParseError>)
        requires
            old(self).is_at(old(self).position(), TokenKind::KeywordProfile),
        ensures
            final(self).advanced(old(self)),
            r is Ok ==> final(self).position() > old(self).position(),
            match old(self).input().profile_at(old(self).position()) {
                Ok((pv, q)) => r is Ok && profile_view(r->Ok_0) == pv && r->Ok_0.package.source_info
                    == r->Ok_0.source_info && final(self).position() == q,
                Err(f) => r is Err && old(self).input().fails_with(r->Err_0, f),
            },
    {
        proof {
            use_type_invariant(&*self);
            self.lemma_toks();
        }
        let start_info = self.info_at(self.pos);
        assert(self.pos < self.tokens.len());
        self.pos = self.pos + 1;
        let (pkg_path, name) = self.parse_qualified_name()?;
        self.expect_token(TokenKind::LBrace)?;
        proof {
            use_type_invariant(&*self);
            self.lemma_toks();
        }
        let ghost p2 = self.position();
        let mut tags: Vec<ProfileTag> = Vec::new();
        let mut stereotypes: Vec<ProfileStereotype> = Vec::new();
        proof {
            assert(profile_tag_views(tags@) =~= Seq::<(Seq<char>, SourceInfo)>::empty());
            assert(profile_stereotype_views(stereotypes@) =~= Seq::<(Seq<char>, SourceInfo)>::empty());
        }
        while self.pos < self.tokens.len() && self.tokens[self.pos].token.kind() != TokenKind::RBrace
            invariant
                self.advanced(old(self)),
                self.toks().len() == self.tokens@.len(),
                self.pos > old(self).pos,
                old(self).input().profile_body(p2, Seq::empty(), Seq::empty()) == old(self).input().profile_body(
                    self.position(),
                    profile_tag_views(tags@),
                    profile_stereotype_views(stereotypes@),
                ),
                old(self).input().profile_body(p2, Seq::empty(), Seq::empty()) is Err ==> old(
                    self,
                ).input().profile_at(old(self).position()) == Err::<(ProfileView, int), Fail>(
                    old(self).input().profile_body(p2, Seq::empty(), Seq::empty())->Err_0,
                ),
            decreases self.tokens.len() - self.pos,
        {
            proof {
                self.lemma_toks();
            }
            let ghost iter_start = self.pos;
            let ghost t0 = profile_tag_views(tags@);
            let ghost s0 = profile_stereotype_views(stereotypes@);
            match self.ident_at(self.pos) {
                Some(prop) => {
                    let is_tags = str_eq(prop.as_str(), "tags");
                    let is_stereo = str_eq(prop.as_str(), "stereotypes");
                    if is_tags || is_stereo {
                        self.pos = self.pos + 1;
                        self.expect_token(TokenKind::Colon)?;
                        self.expect_token(TokenKind::LBracket)?;
                        proof {
                            use_type_invariant(&*self);
                            self.lemma_toks();
                        }
                        let ghost q2 = self.position();
                        while self.pos < self.tokens.len() && self.tokens[self.pos].token.kind()
                            != TokenKind::RBracket
                            invariant_except_break
                                old(self).input().profile_values(q2, t0, s0, is_tags, is_stereo) == old(
                                    self,
                                ).input().profile_values(
                                    self.position(),
                                    profile_tag_views(tags@),
                                    profile_stereotype_views(stereotypes@),
                                    is_tags,
                                    is_stereo,
                                ),
                            invariant
                                self.advanced(old(self)),
                                self.toks().len() == self.tokens@.len(),
                                self.pos > old(self).pos,
                                self.pos > iter_start,
                            ensures
                                self.advanced(old(self)),
                                self.toks().len() == self.tokens@.len(),
                                self.pos > old(self).pos,
                                self.pos > iter_start,
                                old(self).input().profile_values(q2, t0, s0, is_tags, is_stereo) == (
                                    profile_tag_views(tags@),
                                    profile_stereotype_views(stereotypes@),
                                    self.position(),
                                ),
                            decreases self.tokens.len() - self.pos,
                        {
                            proof {
                                self.lemma_toks();
                            }
                            match self.ident_at(self.pos) {
                                Some(val) => {
                                    let src_info = self.info_at(self.pos);
                                    let ghost tb = profile_tag_views(tags@);
                                    let ghost sb = profile_stereotype_views(stereotypes@);
                                    if is_tags {
                                        tags.push(
                                            ProfileTag { value: val.clone(), source_info: src_info.duplicate() },
                                        );
                                    }
                                    if is_stereo {
                                        stereotypes.push(
                                            ProfileStereotype { value: val, source_info: src_info },
                                        );
                                    }
                                    proof {
                                        let entry = (val@, self.spanned()[self.position()].source_info);
                                        if is_tags {
                                            assert(profile_tag_views(tags@) =~= tb.push(entry));
                                        } else {
                                            assert(profile_tag_views(tags@) =~= tb);
                                        }
                                        if is_stereo {
                                            assert(profile_stereotype_views(stereotypes@) =~= sb.push(entry));
                                        } else {
                                            assert(profile_stereotype_views(stereotypes@) =~= sb);
                                        }
                                    }
                                    self.pos = self.pos + 1;
                                },
                                None => {
                                    if self.tokens[self.pos].token.kind() == TokenKind::Comma {
                                        self.pos = self.pos + 1;
                                    } else {
                                        break ;
                                    }
                                },
                            }
                        }
                        self.expect_token(TokenKind::RBracket)?;
                        self.expect_token(TokenKind::Semi)?;
                        proof {
                            use_type_invariant(&*self);
                            self.lemma_toks();
                        }
                    } else {
                        self.pos = self.pos + 1;
                    }
                },
                None => {
                    self.pos = self.pos + 1;
                },
            }
        }
        let end_info = if self.pos < self.tokens.len() {
            self.info_at(self.pos)
        } else {
            self.info_at(self.tokens.len() - 1)
        };
        self.expect_token(TokenKind::RBrace)?;
        let source_info = join_info(&start_info, &end_info);
        Ok(
            ProfileDef {
                package: PackagePath { path: pkg_path, source_info: source_info.duplicate() },
                name,
                tags,
                stereotypes,
                source_info,
            },
        )
    }

    /// Skips a function definition, refusing type or multiplicity
    /// parameters in its header, `->subType(...)` in its body and islands
    /// whose grammar is not registered.
    fn parse_function(&mut self) -> (r: Result<(), ParseError>)
        requires
            old(self).is_at(old(self).position(), TokenKind::KeywordFunction),
        ensures
            final(self).advanced(old(self)),
            final(self).position() > old(self).position(),
            match old(self).input().function_at(old(self).position()) {
                Ok(q) => r is Ok && final(self).position() == q,
                Err(f) => r is Err && old(self).input().fails_with(r->Err_0, f),
            },
    {
        proof {
            use_type_invariant(&*self);
            self.lemma_toks();
        }
        assert(self.pos < self.tokens.len());
        self.pos = self.pos + 1;
        // The header, up to the body.
        while self.pos < self.tokens.len() && self.tokens[self.pos].token.kind() != TokenKind::LBrace
            invariant
                self.advanced(old(self)),
                self.toks().len() == self.tokens@.len(),
                self.pos > old(self).pos,
                old(self).input().function_header(old(self).position() + 1) == old(self).input().function_header(
                    self.position(),
                ),
            decreases self.tokens.len() - self.pos,
        {
            proof {
                self.lemma_toks();
            }
            if self.tokens[self.pos].token.kind() == TokenKind::Lt {
                return Err(self.type_params_error(self.pos));
            }
            self.pos = self.pos + 1;
        }
        if self.at_kind(TokenKind::LBrace) {
            self.pos = self.pos + 1;
        }
        let ghost body_start = self.pos;
        let mut brace_depth: usize = 1;
        while self.pos < self.tokens.len() && brace_depth > 0
            invariant_except_break
                old(self).input().function_body(body_start as int, 1) == old(self).input().function_body(
                    self.position(),
                    brace_depth as int,
                ),
            invariant
                self.advanced(old(self)),
                self.toks().len() == self.tokens@.len(),
                self.pos > old(self).pos,
                self.pos >= body_start,
                brace_depth <= self.pos - body_start + 1,
                body_start >= 1,
                old(self).input().function_body(body_start as int, 1) is Err ==> old(self).input().function_at(
                    old(self).position(),
                ) == old(self).input().function_body(body_start as int, 1),
            ensures
                self.advanced(old(self)),
                self.toks().len() == self.tokens@.len(),
                self.pos > old(self).pos,
                old(self).input().function_body(body_start as int, 1) == Ok::<int, Fail>(self.position()),
            decreases self.tokens.len() - self.pos,
        {
            proof {
                self.lemma_toks();
            }
            let k = self.tokens[self.pos].token.kind();
            if k == TokenKind::LBrace {
                brace_depth = brace_depth + 1;
            } else if k == TokenKind::RBrace {
                brace_depth = brace_depth - 1;
                if brace_depth == 0 {
                    self.pos = self.pos + 1;
                    break ;
                }
            } else if k == TokenKind::Arrow {
                if self.tokens.len() - self.pos > 2 {
                    match self.name_at(self.pos + 1) {
                        Some(id) => {
                            if str_eq(id.as_str(), "subType") {
                                return Err(self.sub_type_error(self.pos));
                            }
                        },
                        None => {},
                    }
                }
            } else if k == TokenKind::IslandExtendedOpen {
                let plugin_name = self.island_name_at(self.pos);
                if !self.registry.contains_island(plugin_name.as_str()) {
                    return Err(self.island_error(self.pos, &plugin_name));
                }
            }
            self.pos = self.pos + 1;
        }
        // Mapping functions may carry a second body: `{ } { content }`.
        if self.at_kind(TokenKind::LBrace) {
            brace_depth = 1;
            self.pos = self.pos + 1;
            let ghost second_start = self.pos;
            while self.pos < self.tokens.len() && brace_depth > 0
                invariant
                    self.advanced(old(self)),
                    self.toks().len() == self.tokens@.len(),
                    self.pos > old(self).pos,
                    self.pos >= second_start,
                    second_start >= 1,
                    brace_depth <= self.pos - second_start + 1,
                    old(self).input().block_end(second_start as int, 1) == old(self).input().block_end(
                        self.position(),
                        brace_depth as int,
                    ),
                decreases self.tokens.len() - self.pos,
            {
                proof {
                    self.lemma_toks();
                }
                let k = self.tokens[self.pos].token.kind();
                if k == TokenKind::LBrace {
                    brace_depth = brace_depth + 1;
                } else if k == TokenKind::RBrace {
                    brace_depth = brace_depth - 1;
                }
                self.pos = self.pos + 1;
            }
        }
        Ok(())
    }

    /// The text of the extended island opened at token `j`.
    fn island_name_at(&self, j: usize) -> (r: String)
        requires
            j < self.toks().len(),
            self.kind_at(j as int) == TokenKind::IslandExtendedOpen,
        ensures
            r@ == self.toks()[j as int].text(),
    {
        proof {
            self.lemma_toks();
        }
        match &self.tokens[j].token {
            Token::IslandExtendedOpen(n) => n.clone(),
            _ => String::new(),
        }
    }

    /// The refusal of `->subType(...)` at token `j`: located from the arrow
    /// to the first `)` after it.
    fn sub_type_error(&self, j: usize) -> (e: ParseError)
        requires
            j + 2 < self.toks().len(),
        ensures
            is_engine_error(
                e,
                "->subType() is supported only at root level"@,
                joined_info(
                    self.spanned()[j as int].source_info,
                    self.end_info_of_first_or(j + 2, TokenKind::RParen, j + 1),
                ),
            ),
    {
        proof {
            self.lemma_toks();
        }
        let src = self.info_at(j);
        assert(j + 2 < self.tokens.len());
        let end_pos = self.find_kind(j + 2, TokenKind::RParen);
        let end_info = if end_pos < self.tokens.len() {
            self.info_at(end_pos)
        } else {
            self.info_at(j + 1)
        };
        ParseError::EngineError(
            "->subType() is supported only at root level".to_string(),
            join_info(&src, &end_info),
        )
    }

    /// The location of the first token of kind `k` at or after `j`, or of
    /// token `fallback` if there is none.
    pub open spec fn end_info_of_first_or(&self, j: int, k: TokenKind, fallback: int) -> SourceInfo {
        self.input().end_info_of_first_or(j, k, fallback)
    }

    /// Index just past the island opened at `j`, counting nested islands.
    pub open spec fn island_end(&self, e: int, depth: int) -> int {
        self.input().island_end(e, depth)
    }

    /// The refusal of an island of unregistered type `name` opened at
    /// token `j`: located from the opening to its closing `}#`.
    fn island_error(&self, j: usize, name: &String) -> (e: ParseError)
        requires
            j < self.toks().len(),
        ensures
            exists|a: Seq<String>|
                self.plugins().sorted_arrangement(a) && #[trigger] is_engine_error(
                    e,
                    island_message(name@, join_spec(views(a), ", "@)),
                    joined_info(
                        self.spanned()[j as int].source_info,
                        self.spanned()[self.island_end(j + 1, 1) - 1].source_info,
                    ),
                ),
    {
        proof {
            self.lemma_toks();
        }
        let src = self.info_at(j);
        assert(j < self.tokens.len());
        let mut end_pos = j + 1;
        let mut depth: usize = 1;
        while end_pos < self.tokens.len() && depth > 0
            invariant
                j < end_pos <= self.tokens@.len(),
                self.toks().len() == self.tokens@.len(),
                depth <= end_pos - j,
                self.island_end(j + 1, 1) == self.island_end(end_pos as int, depth as int),
            decreases self.tokens.len() - end_pos,
        {
            let k = self.tokens[end_pos].token.kind();
            if k == TokenKind::IslandExtendedOpen {
                depth = depth + 1;
            } else if k == TokenKind::IslandClose {
                depth = depth - 1;
            }
            end_pos = end_pos + 1;
        }
        let end_info = self.info_at(end_pos - 1);
        let available = self.registry.sorted_islands();
        let mut msg = "Can't find an embedded Pure parser for the type '".to_string();
        msg.append(name.as_str());
        msg.append("' available ones: [");
        let listed = join(&available, ", ");
        msg.append(listed.as_str());
        msg.append("]");
        let e = ParseError::EngineError(msg, join_info(&src, &end_info));
        assert(self.plugins().sorted_arrangement(available@));
        assert(is_engine_error(
            e,
            island_message(name@, join_spec(views(available@), ", "@)),
            joined_info(
                self.spanned()[j as int].source_info,
                self.spanned()[self.island_end(j + 1, 1) - 1].source_info,
            ),
        ));
        e
    }

    /// Parses the elements of a `###Pure` section, up to the next section
    /// header.
    fn parse_pure_section(&mut self) -> (r: Result<Vec<Element>, ParseError>)
        ensures
            final(self).advanced(old(self)),
            r is Ok ==> final(self).position() == final(self).toks().len() || final(self).is_at(
                final(self).position(),
                TokenKind::SectionHeader,
            ),
            r is Ok && old(self).position() < old(self).toks().len() && !old(self).is_at(
                old(self).position(),
                TokenKind::SectionHeader,
            ) ==> final(self).position() > old(self).position(),
            match old(self).input().section_at(old(self).position(), Seq::empty()) {
                Ok((els, q)) => r is Ok && element_views(r->Ok_0@) == els && (forall|i: int|
                    0 <= i < r->Ok_0@.len() ==> element_shape(#[trigger] r->Ok_0@[i]))
                    && final(self).position() == q,
                Err(f) => r is Err && old(self).input().fails_with(r->Err_0, f),
            },
    {
        proof {
            use_type_invariant(&*self);
            self.lemma_toks();
        }
        let mut elements: Vec<Element> = Vec::new();
        proof {
            assert(element_views(elements@) =~= Seq::<ElementView>::empty());
        }
        while self.pos < self.tokens.len()
            invariant
                self.advanced(old(self)),
                self.toks().len() == self.tokens@.len(),
                forall|i: int| 0 <= i < elements@.len() ==> element_shape(#[trigger] elements@[i]),
                old(self).input().section_at(old(self).position(), Seq::empty()) == old(self).input().section_at(
                    self.position(),
                    element_views(elements@),
                ),
                self.position() > old(self).position() || elements@.len() == 0,
            ensures
                self.advanced(old(self)),
                self.toks().len() == self.tokens@.len(),
                forall|i: int| 0 <= i < elements@.len() ==> element_shape(#[trigger] elements@[i]),
                self.pos == self.tokens@.len() || self.is_at(self.position(), TokenKind::SectionHeader),
                old(self).input().section_at(old(self).position(), Seq::empty()) == Ok::<
                    (Seq<ElementView>, int),
                    Fail,
                >((element_views(elements@), self.position())),
                self.position() > old(self).position() || (old(self).position() < old(self).toks().len()
                    ==> old(self).is_at(old(self).position(), TokenKind::SectionHeader)),
            decreases self.tokens.len() - self.pos,
        {
            proof {
                self.lemma_toks();
            }
            let ghost before = element_views(elements@);
            let k = self.tokens[self.pos].token.kind();
            if k == TokenKind::KeywordClass {
                let c = self.parse_class()?;
                elements.push(Element::Class(c));
                proof {
                    assert(element_views(elements@) =~= before.push(ElementView::Class(class_view(c))));
                }
            } else if k == TokenKind::KeywordProfile {
                let p = self.parse_profile()?;
                elements.push(Element::Profile(p));
                proof {
                    assert(element_views(elements@) =~= before.push(ElementView::Profile(profile_view(p))));
                }
            } else if k == TokenKind::KeywordFunction {
                self.parse_function()?;
            } else if k == TokenKind::SectionHeader {
                break ;
            } else {
                return Err(self.unexpected(self.pos));
            }
            proof {
                use_type_invariant(&*self);
                self.lemma_toks();
            }
        }
        Ok(elements)
    }

    /// Runs section plugin `k` on the section whose header is the current
    /// token: the elements it produced, as extension elements, with the
    /// position moved past the section.
    fn run_section_plugin(&mut self, k: usize) -> (r: Result<Vec<Element>, ParseError>)
        requires
            old(self).position() < old(self).toks().len(),
            k < old(self).plugins().section_plugins@.len(),
        ensures
            final(self).advanced(old(self)),
            r is Ok ==> final(self).position() > old(self).position(),
            r is Ok ==> forall|i: int| 0 <= i < r->Ok_0@.len() ==> (#[trigger] r->Ok_0@[i]) is Extension,
    {
        proof {
            use_type_invariant(&*self);
            self.lemma_toks();
        }
        assert(self.pos < self.tokens.len());
        let mut p: usize = self.pos + 1;
        let items = self.registry.section_plugins[k].1.parse_section(
            self.tokens.as_slice(),
            &mut p,
            self.source,
            self.registry.island_plugins.as_slice(),
        )?;
        let mut items = items;
        let mut out: Vec<Element> = Vec::new();
        while items.len() > 0
            invariant
                forall|i: int| 0 <= i < out@.len() ==> (#[trigger] out@[i]) is Extension,
            decreases items.len(),
        {
            let x = items.remove(0);
            out.push(Element::Extension(x));
        }
        self.pos = p;
        Ok(out)
    }

    /// Parses a whole document: `###Pure` sections (the first may omit its
    /// header) and the sections of registered section plugins; sections
    /// that nothing parses are refused.
    #[verifier::rlimit(60)]
    pub fn parse_document(&mut self) -> (r: Result<Vec<Element>, ParseError>)
        ensures
            final(self).advanced(old(self)),
            exists|answers: Map<int, SectionAnswer>|
                #[trigger] old(self).input().answers_ok(answers) && match old(self).input().document_from(
                    old(self).position(),
                    Seq::empty(),
                    answers,
                ) {
                    Ok(els) => r is Ok && element_views(r->Ok_0@) == els && (forall|i: int|
                        0 <= i < r->Ok_0@.len() ==> element_shape(#[trigger] r->Ok_0@[i]))
                        && final(self).position() == final(self).toks().len(),
                    Err(Fail::Plugin(j)) => r is Err && answers.dom().contains(j) && answers[j] is Err
                        && r->Err_0 == answers[j]->Err_0,
                    Err(f) => r is Err && old(self).input().fails_with(r->Err_0, f),
                },
    {
        proof {
            use_type_invariant(&*self);
            self.lemma_toks();
        }
        let ghost inp = old(self).input();
        let ghost p0 = old(self).position();
        let ghost mut answers: Map<int, SectionAnswer> = Map::empty();
        let mut elements: Vec<Element> = Vec::new();
        proof {
            assert(element_views(elements@) =~= Seq::<ElementView>::empty());
        }
        while self.pos < self.tokens.len()
            invariant
                self.advanced(old(self)),
                inp == old(self).input(),
                p0 == old(self).position(),
                self.toks().len() == self.tokens@.len(),
                forall|i: int| 0 <= i < elements@.len() ==> element_shape(#[trigger] elements@[i]),
                inp.answers_ok(answers),
                forall|k: int| #[trigger] answers.dom().contains(k) ==> k < self.position(),
                forall|a: Map<int, SectionAnswer>|
                    #[trigger] answers_extend(a, answers) ==> inp.document_from(p0, Seq::empty(), a)
                        == inp.document_from(self.position(), element_views(elements@), a),
            decreases self.tokens.len() - self.pos,
        {
            proof {
                self.lemma_toks();
            }
            let ghost here = self.position();
            let ghost before = elements@;
            match &self.tokens[self.pos].token {
                Token::SectionHeader(name) => {
                    if str_eq(name.as_str(), "Pure") {
                        self.pos = self.pos + 1;
                        let mut section = match self.parse_pure_section() {
                            Ok(sec) => sec,
                            Err(e) => {
                                proof {
                                    assert(answers_extend(answers, answers));
                                }
                                return Err(e);
                            },
                        };
                        let ghost sec = section@;
                        elements.append(&mut section);
                        proof {
                            assert(elements@ =~= before + sec);
                            assert(element_views(elements@) =~= element_views(before) + element_views(sec));
                        }
                    } else {
                        match self.registry.find_section_plugin(name.as_str()) {
                            None => {
                                proof {
                                    assert(self.plugins() == inp.plugins);
                                    assert(!inp.has_section_plugin(name@));
                                    assert(answers_extend(answers, answers));
                                }
                                return Err(ParseError::UnknownSection(name.clone()));
                            },
                            Some(k) => {
                                proof {
                                    assert(self.plugins() == inp.plugins);
                                    assert(inp.plugins.section_plugins@[k as int].0@ == name@);
                                    assert(inp.has_section_plugin(name@));
                                }
                                match self.run_section_plugin(k) {
                                    Err(e) => {
                                        let ghost next = answers.insert(here, Err(e));
                                        proof {
                                            lemma_answers_insert(inp, answers, here, Err(e));
                                        }
                                        return Err(e);
                                    },
                                    Ok(mut produced) => {
                                        let ghost xs = element_views(produced@);
                                        let ghost next = answers.insert(here, Ok((xs, self.position())));
                                        elements.append(&mut produced);
                                        proof {
                                            lemma_answers_insert(inp, answers, here, Ok((xs, self.position())));
                                            assert(element_views(elements@) =~= element_views(before) + xs);
                                            assert forall|a: Map<int, SectionAnswer>|
                                                #[trigger] answers_extend(a, next) implies inp.document_from(
                                                    p0,
                                                    Seq::empty(),
                                                    a,
                                                ) == inp.document_from(self.position(), element_views(elements@), a) by {
                                                lemma_answers_insert(inp, answers, here, next[here]);
                                                lemma_extend_insert(a, answers, here, next[here]);
                                            }
                                            answers = next;
                                        }
                                    },
                                }
                            },
                        }
                    }
                },
                _ => {
                    let mut section = match self.parse_pure_section() {
                        Ok(sec) => sec,
                        Err(e) => {
                            proof {
                                assert(answers_extend(answers, answers));
                            }
                            return Err(e);
                        },
                    };
                    let ghost sec = section@;
                    elements.append(&mut section);
                    proof {
                        assert(elements@ =~= before + sec);
                        assert(element_views(elements@) =~= element_views(before) + element_views(sec));
                    }
                },
            }
            proof {
                use_type_invariant(&*self);
                self.lemma_toks();
            }
        }
        proof {
            assert(answers_extend(answers, answers));
        }
        Ok(elements)
    }

    /// The super types named by identifier-like tokens in `a..b`: path and
    /// location of each.
    pub open spec fn super_types_in(&self, a: int, b: int) -> Seq<(Seq<char>, SourceInfo)> {
        self.input().super_types_in(a, b)
    }
}

/// Path and location of a type reference.
pub open spec fn type_view(t: Type) -> (Seq<char>, SourceInfo) {
    match t {
        Type::Packageable(p) => (p.full_path@, p.source_info),
    }
}

pub open spec fn type_views(ts: Seq<Type>) -> Seq<(Seq<char>, SourceInfo)> {
    ts.map_values(|t: Type| type_view(t))
}

/// `start`'s source id and start coordinates with `end`'s end coordinates.
pub open spec fn joined_info(start: SourceInfo, end: SourceInfo) -> SourceInfo {
    SourceInfo {
        source_id: start.source_id,
        start_line: start.start_line,
        start_column: start.start_column,
        end_line: end.end_line,
        end_column: end.end_column,
    }
}

/// `joined_info(start, end)`, computed.
pub fn join_info(start: &SourceInfo, end: &SourceInfo) -> (r: SourceInfo)
    ensures
        r == joined_info(*start, *end),
{
    SourceInfo {
        source_id: start.source_id.clone(),
        start_line: start.start_line,
        start_column: start.start_column,
        end_line: end.end_line,
        end_column: end.end_column,
    }
}

/// `e` is an engine error with this message and location.
pub open spec fn is_engine_error(e: ParseError, msg: Seq<char>, at: SourceInfo) -> bool {
    match e {
        ParseError::EngineError(m, si) => m@ == msg && si == at,
        _ => false,
    }
}

/// The refusal of an island whose grammar is not registered.
pub open spec fn island_message(name: Seq<char>, available: Seq<char>) -> Seq<char> {
    "Can't find an embedded Pure parser for the type '"@ + name + "' available ones: ["@ + available
        + "]"@
}

/// The refusal of type and multiplicity parameters.
pub open spec fn type_params_message() -> Seq<char> {
    "Type and/or multiplicity parameters are not authorized in Legend Engine"@
}

fn type_params_text() -> (r: String)
    ensures
        r@ == type_params_message(),
{
    "Type and/or multiplicity parameters are not authorized in Legend Engine".to_string()
}

} // verus!
