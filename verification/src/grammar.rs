//! What the document parser reads from a token list, as spec functions:
//! for each construct, starting at a token index, either what it yields
//! and the index just past it, or why it fails.
use vstd::prelude::*;

use crate::ast::{
    ClassDef, Element, ExtensionElement, ProfileDef, Property, SourceInfo, StereotypePtr, TaggedValue,
};
use crate::lexer::{SpannedToken, Token, TokenKind};
use crate::parser::{
    is_engine_error, island_message, joined_info, type_params_message, type_view, type_views,
    ParseError, PluginRegistry,
};
use crate::text::{join_spec, views};

verus! {

/// What the grammar reads: the tokens, their locations, and the
/// registered island grammars.
pub struct Input {
    pub toks: Seq<Token>,
    pub spanned: Seq<SpannedToken>,
    pub plugins: PluginRegistry,
}

/// Why a parse fails.
pub enum Fail {
    /// The token at this index does not fit.
    Token(int),
    /// The input ended where a token was expected.
    Eof,
    /// A section header of this name that no parser handles.
    Section(Seq<char>),
    /// Type or multiplicity parameters opened at this index.
    TypeParams(int),
    /// `->subType(...)` at this index.
    SubType(int),
    /// An island of a type with no registered grammar opened at this index.
    Island(int),
    /// The section plugin for the section whose header is at this index
    /// failed (its error is its answer).
    Plugin(int),
}

/// A property as read: name, type path, stereotypes, tagged values.
pub struct PropertyView {
    pub name: Seq<char>,
    pub type_path: Seq<char>,
    pub stereotypes: Seq<(Seq<char>, Seq<char>)>,
    pub tagged_values: Seq<(Seq<char>, Seq<char>, Seq<char>)>,
}

/// A class as read.
pub struct ClassView {
    pub package: Seq<Seq<char>>,
    pub name: Seq<char>,
    pub super_types: Seq<(Seq<char>, SourceInfo)>,
    pub properties: Seq<PropertyView>,
    pub stereotypes: Seq<(Seq<char>, Seq<char>)>,
    pub tagged_values: Seq<(Seq<char>, Seq<char>, Seq<char>)>,
    pub source_info: SourceInfo,
}

/// A profile as read: tags and stereotypes with their locations.
pub struct ProfileView {
    pub package: Seq<Seq<char>>,
    pub name: Seq<char>,
    pub tags: Seq<(Seq<char>, SourceInfo)>,
    pub stereotypes: Seq<(Seq<char>, SourceInfo)>,
    pub source_info: SourceInfo,
}

/// An element that a section plugin produced.
pub struct ExtensionView {
    pub section: Seq<char>,
    pub element_type: Seq<char>,
    pub package: Seq<Seq<char>>,
    pub name: Seq<char>,
    pub source_info: SourceInfo,
}

/// An element as read.
pub enum ElementView {
    Class(ClassView),
    Profile(ProfileView),
    Extension(ExtensionView),
    Other,
}

/// What the section plugin for the section whose header is at a token
/// answered: the elements it read and the index after the section, or its
/// error.
pub type SectionAnswer = Result<(Seq<ElementView>, int), ParseError>;

/// `a` holds every answer of `b`, unchanged.
pub open spec fn answers_extend(a: Map<int, SectionAnswer>, b: Map<int, SectionAnswer>) -> bool {
    forall|k: int| #[trigger] b.dom().contains(k) ==> a.dom().contains(k) && a[k] == b[k]
}

// ───────────────────────────── views of parsed values ─────────────────────────────

pub open spec fn stereotype_views(s: Seq<StereotypePtr>) -> Seq<(Seq<char>, Seq<char>)> {
    s.map_values(|p: StereotypePtr| (p.profile@, p.value@))
}

pub open spec fn tagged_value_views(s: Seq<TaggedValue>) -> Seq<(Seq<char>, Seq<char>, Seq<char>)> {
    s.map_values(|t: TaggedValue| (t.profile@, t.tag@, t.value@))
}

/// Stereotypes and tagged values carry no location.
pub open spec fn unlocated(st: Seq<StereotypePtr>, tv: Seq<TaggedValue>) -> bool {
    &&& forall|i: int| 0 <= i < st.len() ==> (#[trigger] st[i]).profile_source_info.is_dummy() && st[i].source_info.is_dummy()
    &&& forall|i: int| 0 <= i < tv.len() ==> (#[trigger] tv[i]).profile_source_info.is_dummy() && tv[i].source_info.is_dummy()
}

pub open spec fn property_view(p: Property) -> PropertyView {
    PropertyView {
        name: p.name@,
        type_path: type_view(p.property_type).0,
        stereotypes: stereotype_views(p.stereotypes@),
        tagged_values: tagged_value_views(p.tagged_values@),
    }
}

/// What every parsed property shares: multiplicity `[1]` and no
/// locations.
pub open spec fn property_shape(p: Property) -> bool {
    &&& p.multiplicity.lower_bound == 1
    &&& p.multiplicity.upper_bound == Some(1usize)
    &&& p.source_info.is_dummy()
    &&& type_view(p.property_type).1.is_dummy()
    &&& unlocated(p.stereotypes@, p.tagged_values@)
}

pub open spec fn property_views(s: Seq<Property>) -> Seq<PropertyView> {
    s.map_values(|p: Property| property_view(p))
}

pub open spec fn class_view(c: ClassDef) -> ClassView {
    ClassView {
        package: views(c.package.path@),
        name: c.name@,
        super_types: type_views(c.super_types@),
        properties: property_views(c.properties@),
        stereotypes: stereotype_views(c.stereotypes@),
        tagged_values: tagged_value_views(c.tagged_values@),
        source_info: c.source_info,
    }
}

/// What every parsed class shares.
pub open spec fn class_shape(c: ClassDef) -> bool {
    &&& c.package.source_info == c.source_info
    &&& c.qualified_properties@.len() == 0
    &&& c.constraints@.len() == 0
    &&& unlocated(c.stereotypes@, c.tagged_values@)
    &&& forall|i: int| 0 <= i < c.properties@.len() ==> property_shape(#[trigger] c.properties@[i])
}

pub open spec fn profile_tag_views(s: Seq<crate::ast::ProfileTag>) -> Seq<(Seq<char>, SourceInfo)> {
    s.map_values(|t: crate::ast::ProfileTag| (t.value@, t.source_info))
}

pub open spec fn profile_stereotype_views(s: Seq<crate::ast::ProfileStereotype>) -> Seq<(Seq<char>, SourceInfo)> {
    s.map_values(|t: crate::ast::ProfileStereotype| (t.value@, t.source_info))
}

pub open spec fn profile_view(p: ProfileDef) -> ProfileView {
    ProfileView {
        package: views(p.package.path@),
        name: p.name@,
        tags: profile_tag_views(p.tags@),
        stereotypes: profile_stereotype_views(p.stereotypes@),
        source_info: p.source_info,
    }
}

pub open spec fn extension_view(x: ExtensionElement) -> ExtensionView {
    ExtensionView {
        section: x.section@,
        element_type: x.element_type@,
        package: views(x.package.path@),
        name: x.name@,
        source_info: x.source_info,
    }
}

pub open spec fn element_view(e: Element) -> ElementView {
    match e {
        Element::Class(c) => ElementView::Class(class_view(c)),
        Element::Profile(p) => ElementView::Profile(profile_view(p)),
        Element::Extension(x) => ElementView::Extension(extension_view(x)),
        _ => ElementView::Other,
    }
}

/// The views of what a section plugin produced, as elements.
pub open spec fn extension_views(s: Seq<ExtensionElement>) -> Seq<ElementView> {
    s.map_values(|x: ExtensionElement| ElementView::Extension(extension_view(x)))
}

pub open spec fn element_shape(e: Element) -> bool {
    match e {
        Element::Class(c) => class_shape(c),
        Element::Profile(p) => p.package.source_info == p.source_info,
        Element::Extension(_) => true,
        _ => false,
    }
}

pub open spec fn element_views(s: Seq<Element>) -> Seq<ElementView> {
    s.map_values(|e: Element| element_view(e))
}

impl Input {
    /// The kind of token `j`.
    pub open spec fn kind_at(&self, j: int) -> TokenKind {
        self.toks[j].spec_kind()
    }

    /// Whether token `j` exists and is of kind `k`.
    pub open spec fn is_at(&self, j: int, k: TokenKind) -> bool {
        0 <= j < self.toks.len() && self.kind_at(j) == k
    }

    /// Index of the first token of kind `k` at or after `j` (the number of
    /// tokens if there is none).
    pub open spec fn first_from(&self, j: int, k: TokenKind) -> int
        decreases self.toks.len() - j,
    {
        if j < 0 || j >= self.toks.len() {
            self.toks.len() as int
        } else if self.kind_at(j) == k {
            j
        } else {
            self.first_from(j + 1, k)
        }
    }

    /// The location of the first token of kind `k` at or after `j`, or of
    /// token `j` itself if there is none.
    pub open spec fn end_info_of_first(&self, j: int, k: TokenKind) -> SourceInfo {
        let e = self.first_from(j, k);
        if e < self.spanned.len() {
            self.spanned[e].source_info
        } else {
            self.spanned[j].source_info
        }
    }

    /// A `{` at `j` followed by `Ident .`.
    pub open spec fn opens_tagged_values(&self, j: int) -> bool {
        &&& self.is_at(j, TokenKind::LBrace)
        &&& j + 2 < self.toks.len()
        &&& self.toks[j + 1] is Ident
        &&& self.is_at(j + 2, TokenKind::Dot)
    }

    /// The location of the first token of kind `k` at or after `j`, or of
    /// token `fallback` if there is none.
    pub open spec fn end_info_of_first_or(&self, j: int, k: TokenKind, fallback: int) -> SourceInfo {
        let e = self.first_from(j, k);
        if e < self.spanned.len() {
            self.spanned[e].source_info
        } else {
            self.spanned[fallback].source_info
        }
    }

    /// Index just past the island opened at `j`, counting nested islands.
    pub open spec fn island_end(&self, e: int, depth: int) -> int
        decreases self.toks.len() - e,
    {
        if e >= self.toks.len() || depth <= 0 || e < 0 {
            e
        } else if self.kind_at(e) == TokenKind::IslandExtendedOpen {
            self.island_end(e + 1, depth + 1)
        } else if self.kind_at(e) == TokenKind::IslandClose {
            self.island_end(e + 1, depth - 1)
        } else {
            self.island_end(e + 1, depth)
        }
    }

    /// The super types named by identifier-like tokens in `a..b`: path and
    /// location of each.
    pub open spec fn super_types_in(&self, a: int, b: int) -> Seq<(Seq<char>, SourceInfo)>
        decreases b - a,
    {
        if b <= a {
            Seq::empty()
        } else {
            let prev = self.super_types_in(a, b - 1);
            match self.toks[b - 1].ident_text() {
                Some(p) => prev.push((p, self.spanned[b - 1].source_info)),
                None => prev,
            }
        }
    }


    /// `e` is the error `f` stands for.
    pub open spec fn fails_with(&self, e: ParseError, f: Fail) -> bool {
        match f {
            Fail::Token(j) => 0 <= j < self.toks.len() && e == ParseError::UnexpectedToken(
                self.toks[j],
                j as usize,
            ),
            Fail::Eof => e is UnexpectedEof,
            Fail::Section(n) => e matches ParseError::UnknownSection(s) && s@ == n,
            Fail::TypeParams(j) => is_engine_error(
                e,
                type_params_message(),
                joined_info(self.spanned[j].source_info, self.end_info_of_first(j, TokenKind::Gt)),
            ),
            Fail::SubType(j) => is_engine_error(
                e,
                "->subType() is supported only at root level"@,
                joined_info(
                    self.spanned[j].source_info,
                    self.end_info_of_first_or(j + 2, TokenKind::RParen, j + 1),
                ),
            ),
            Fail::Plugin(_) => false,
            Fail::Island(j) => exists|a: Seq<String>|
                self.plugins.sorted_arrangement(a) && #[trigger] is_engine_error(
                    e,
                    island_message(self.toks[j].text(), join_spec(views(a), ", "@)),
                    joined_info(
                        self.spanned[j].source_info,
                        self.spanned[self.island_end(j + 1, 1) - 1].source_info,
                    ),
                ),
        }
    }

    /// The text of token `j` if it is an identifier.
    pub open spec fn ident_view(&self, j: int) -> Option<Seq<char>> {
        if 0 <= j < self.toks.len() {
            match self.toks[j] {
                Token::Ident(s) => Some(s@),
                _ => None,
            }
        } else {
            None
        }
    }

    /// The name token `j` reads as, if it is identifier-like.
    pub open spec fn name_view(&self, j: int) -> Option<Seq<char>> {
        if 0 <= j < self.toks.len() {
            self.toks[j].ident_text()
        } else {
            None
        }
    }

    /// The text of token `j` if it is a string literal.
    pub open spec fn string_view(&self, j: int) -> Option<Seq<char>> {
        if 0 <= j < self.toks.len() {
            match self.toks[j] {
                Token::StringLit(s) => Some(s@),
                _ => None,
            }
        } else {
            None
        }
    }

    /// Reading a token of kind `k` at `j`.
    pub open spec fn expect(&self, j: int, k: TokenKind) -> Result<int, Fail> {
        if j >= self.toks.len() {
            Err(Fail::Eof)
        } else if self.is_at(j, k) {
            Ok(j + 1)
        } else {
            Err(Fail::Token(j))
        }
    }

    /// The index just past the first token of kind `k` at or after `j`
    /// (the end of the tokens if there is none).
    pub open spec fn after_next(&self, j: int, k: TokenKind) -> int {
        if self.first_from(j, k) < self.toks.len() {
            self.first_from(j, k) + 1
        } else {
            self.toks.len() as int
        }
    }

    // ───────────────────────────── names ─────────────────────────────

    /// `a::b::Name` from `j`: the package segments (after `path`), the
    /// name (empty if the tokens end first) and the index past it.
    pub open spec fn qualified_name(&self, j: int, path: Seq<Seq<char>>) -> Result<
        (Seq<Seq<char>>, Seq<char>, int),
        Fail,
    >
        decreases self.toks.len() - j,
    {
        if j < 0 || j >= self.toks.len() {
            Ok((path, Seq::empty(), j))
        } else {
            match self.name_view(j) {
                Some(id) => if j + 1 < self.toks.len() && self.is_at(j + 1, TokenKind::PathSep) {
                    self.qualified_name(j + 2, path.push(id))
                } else {
                    Ok((path, id, j + 1))
                },
                None => Err(Fail::Token(j)),
            }
        }
    }

    /// A property's type path from `j`: its segments (after `acc`) and
    /// the index past it.
    pub open spec fn type_path(&self, j: int, acc: Seq<Seq<char>>) -> (Seq<Seq<char>>, int)
        decreases self.toks.len() - j,
    {
        if j < 0 || j >= self.toks.len() {
            (acc, j)
        } else {
            match self.name_view(j) {
                Some(id) => if j + 1 < self.toks.len() && self.is_at(j + 1, TokenKind::PathSep) {
                    self.type_path(j + 2, acc.push(id))
                } else {
                    (acc.push(id), j + 1)
                },
                None => (acc, j),
            }
        }
    }

    // ───────────────────────────── stereotypes and tagged values ─────────────────────────────

    /// An optional stereotype list `<<p.v, ...>>` at `j`.
    pub open spec fn stereotypes_at(&self, j: int) -> Result<(Seq<(Seq<char>, Seq<char>)>, int), Fail> {
        if self.is_at(j, TokenKind::LDoubleAngle) {
            self.stereotype_list(j + 1, Seq::empty())
        } else {
            Ok((Seq::empty(), j))
        }
    }

    /// One stereotype item at `j`: `profile.value` adds to `acc`; an item
    /// cut short adds nothing.
    pub open spec fn stereotype_item(&self, j: int, acc: Seq<(Seq<char>, Seq<char>)>) -> Result<
        (Seq<(Seq<char>, Seq<char>)>, int),
        Fail,
    > {
        match self.ident_view(j) {
            Some(p) => if self.is_at(j + 1, TokenKind::Dot) {
                if j + 2 >= self.toks.len() {
                    Err(Fail::Eof)
                } else {
                    match self.ident_view(j + 2) {
                        Some(v) => Ok((acc.push((p, v)), j + 3)),
                        None => Ok((acc, j + 2)),
                    }
                }
            } else {
                Ok((acc, j + 1))
            },
            None => Ok((acc, j)),
        }
    }

    /// The stereotype items from `j` up to and including `>>`; an item that
    /// reads nothing (not even a comma) is refused.
    pub open spec fn stereotype_list(&self, j: int, acc: Seq<(Seq<char>, Seq<char>)>) -> Result<
        (Seq<(Seq<char>, Seq<char>)>, int),
        Fail,
    >
        decreases self.toks.len() - j,
    {
        if j < 0 || j >= self.toks.len() || self.is_at(j, TokenKind::RDoubleAngle) {
            match self.expect(j, TokenKind::RDoubleAngle) {
                Ok(q) => Ok((acc, q)),
                Err(f) => Err(f),
            }
        } else {
            match self.stereotype_item(j, acc) {
                Err(f) => Err(f),
                Ok((acc2, q)) => {
                    let q2 = if self.is_at(q, TokenKind::Comma) {
                        q + 1
                    } else {
                        q
                    };
                    if q2 <= j {
                        Err(Fail::Token(j))
                    } else {
                        self.stereotype_list(q2, acc2)
                    }
                },
            }
        }
    }

    /// An optional tagged-value list `{p.t = 'v', ...}` at `j`.
    pub open spec fn tagged_values_at(&self, j: int) -> Result<(Seq<(Seq<char>, Seq<char>, Seq<char>)>, int), Fail> {
        if self.opens_tagged_values(j) {
            self.tagged_value_list(j + 1, Seq::empty())
        } else {
            Ok((Seq::empty(), j))
        }
    }

    /// One tagged-value item at `j`: `profile.tag = 'value'` adds to `acc`;
    /// an item cut short adds nothing.
    pub open spec fn tagged_value_item(&self, j: int, acc: Seq<(Seq<char>, Seq<char>, Seq<char>)>) -> Result<
        (Seq<(Seq<char>, Seq<char>, Seq<char>)>, int),
        Fail,
    > {
        match self.ident_view(j) {
            Some(p) => if !self.is_at(j + 1, TokenKind::Dot) {
                Ok((acc, j + 1))
            } else if j + 2 >= self.toks.len() {
                Err(Fail::Eof)
            } else {
                match self.ident_view(j + 2) {
                    Some(t) => if !self.is_at(j + 3, TokenKind::Eq) {
                        Ok((acc, j + 3))
                    } else if j + 4 >= self.toks.len() {
                        Err(Fail::Eof)
                    } else {
                        match self.string_view(j + 4) {
                            Some(v) => Ok((acc.push((p, t, v)), j + 5)),
                            None => Ok((acc, j + 4)),
                        }
                    },
                    None => Ok((acc, j + 2)),
                }
            },
            None => Ok((acc, j)),
        }
    }

    /// The tagged-value items from `j` up to and including `}`.
    pub open spec fn tagged_value_list(&self, j: int, acc: Seq<(Seq<char>, Seq<char>, Seq<char>)>) -> Result<
        (Seq<(Seq<char>, Seq<char>, Seq<char>)>, int),
        Fail,
    >
        decreases self.toks.len() - j,
    {
        if j < 0 || j >= self.toks.len() || self.is_at(j, TokenKind::RBrace) {
            match self.expect(j, TokenKind::RBrace) {
                Ok(q) => Ok((acc, q)),
                Err(f) => Err(f),
            }
        } else {
            match self.tagged_value_item(j, acc) {
                Err(f) => Err(f),
                Ok((acc2, q)) => {
                    let q2 = if self.is_at(q, TokenKind::Comma) {
                        q + 1
                    } else {
                        q
                    };
                    if q2 <= j {
                        Err(Fail::Token(j))
                    } else {
                        self.tagged_value_list(q2, acc2)
                    }
                },
            }
        }
    }

    // ───────────────────────────── properties ─────────────────────────────

    /// `<<st>> {tv} name : a::Type [mult];` at `j` (the multiplicity's
    /// tokens are skipped).
    pub open spec fn property_at(&self, j: int) -> Result<(PropertyView, int), Fail> {
        match self.stereotypes_at(j) {
            Err(f) => Err(f),
            Ok((st, p1)) => match self.tagged_values_at(p1) {
                Err(f) => Err(f),
                Ok((tv, p2)) => if p2 >= self.toks.len() {
                    Err(Fail::Eof)
                } else {
                    match self.name_view(p2) {
                        None => Err(Fail::Token(p2)),
                        Some(name) => match self.expect(p2 + 1, TokenKind::Colon) {
                            Err(f) => Err(f),
                            Ok(p3) => {
                                let (path, p4) = self.type_path(p3, Seq::empty());
                                match self.expect(p4, TokenKind::LBracket) {
                                    Err(f) => Err(f),
                                    Ok(p5) => {
                                        let p6 = self.first_from(p5, TokenKind::RBracket);
                                        match self.expect(p6, TokenKind::RBracket) {
                                            Err(f) => Err(f),
                                            Ok(p7) => match self.expect(p7, TokenKind::Semi) {
                                                Err(f) => Err(f),
                                                Ok(p8) => Ok(
                                                    (
                                                        PropertyView {
                                                            name,
                                                            type_path: join_spec(path, "::"@),
                                                            stereotypes: st,
                                                            tagged_values: tv,
                                                        },
                                                        p8,
                                                    ),
                                                ),
                                            },
                                        }
                                    },
                                }
                            },
                        },
                    }
                },
            },
        }
    }

    // ───────────────────────────── classes ─────────────────────────────

    /// Whether the member starting at `j` is a function: a `(` comes before
    /// any `:`.
    pub open spec fn member_is_fn(&self, j: int) -> bool
        decreases self.toks.len() - j,
    {
        if j < 0 || j >= self.toks.len() {
            false
        } else if self.kind_at(j) == TokenKind::LParen {
            true
        } else if self.kind_at(j) == TokenKind::Colon {
            false
        } else {
            self.member_is_fn(j + 1)
        }
    }

    /// `extends A, B` at `j`: the super types up to the class body, and
    /// the index of the body.
    pub open spec fn extends_at(&self, j: int) -> (Seq<(Seq<char>, SourceInfo)>, int) {
        if self.is_at(j, TokenKind::KeywordExtends) {
            let e = self.first_from(j + 1, TokenKind::LBrace);
            (self.super_types_in(j + 1, e), e)
        } else {
            (Seq::empty(), j)
        }
    }

    /// The members of a class body from `j` up to its `}` (not read):
    /// properties are parsed, function members skipped past their `;`,
    /// other tokens skipped.
    pub open spec fn class_body(&self, j: int, acc: Seq<PropertyView>) -> Result<(Seq<PropertyView>, int), Fail>
        decreases self.toks.len() - j,
    {
        if j < 0 || j >= self.toks.len() || self.kind_at(j) == TokenKind::RBrace {
            Ok((acc, j))
        } else {
            let k = self.kind_at(j);
            if k == TokenKind::LBrace || k == TokenKind::LDoubleAngle || k == TokenKind::Ident {
                if self.member_is_fn(j) {
                    let q = self.after_next(j, TokenKind::Semi);
                    if q > j {
                        self.class_body(q, acc)
                    } else {
                        Ok((acc, q))
                    }
                } else {
                    match self.property_at(j) {
                        Err(f) => Err(f),
                        Ok((pv, q)) => if q > j {
                            self.class_body(q, acc.push(pv))
                        } else {
                            Ok((acc, q))
                        },
                    }
                }
            } else {
                self.class_body(j + 1, acc)
            }
        }
    }

    /// `Class <<st>> {tv} a::Name extends S { members }` with `Class` at
    /// `j`.
    pub open spec fn class_at(&self, j: int) -> Result<(ClassView, int), Fail> {
        match self.stereotypes_at(j + 1) {
            Err(f) => Err(f),
            Ok((st, p1)) => match self.tagged_values_at(p1) {
                Err(f) => Err(f),
                Ok((tv, p2)) => match self.qualified_name(p2, Seq::empty()) {
                    Err(f) => Err(f),
                    Ok((pkg, name, p3)) => if self.is_at(p3, TokenKind::Lt) {
                        Err(Fail::TypeParams(p3))
                    } else {
                        let (supers, p4) = self.extends_at(p3);
                        match self.expect(p4, TokenKind::LBrace) {
                            Err(f) => Err(f),
                            Ok(p5) => match self.class_body(p5, Seq::empty()) {
                                Err(f) => Err(f),
                                Ok((props, p6)) => match self.expect(p6, TokenKind::RBrace) {
                                    Err(f) => Err(f),
                                    Ok(p7) => Ok(
                                        (
                                            ClassView {
                                                package: pkg,
                                                name,
                                                super_types: supers,
                                                properties: props,
                                                stereotypes: st,
                                                tagged_values: tv,
                                                source_info: joined_info(
                                                    self.spanned[j].source_info,
                                                    self.spanned[p6].source_info,
                                                ),
                                            },
                                            p7,
                                        ),
                                    ),
                                },
                            },
                        }
                    },
                },
            },
        }
    }

    // ───────────────────────────── profiles ─────────────────────────────

    /// The values of a `tags: [...]` or `stereotypes: [...]` list from `j`
    /// up to its `]` (not read), added to the tags and/or the stereotypes.
    pub open spec fn profile_values(
        &self,
        j: int,
        tags: Seq<(Seq<char>, SourceInfo)>,
        stereos: Seq<(Seq<char>, SourceInfo)>,
        is_tags: bool,
        is_stereos: bool,
    ) -> (Seq<(Seq<char>, SourceInfo)>, Seq<(Seq<char>, SourceInfo)>, int)
        decreases self.toks.len() - j,
    {
        if j < 0 || j >= self.toks.len() || self.kind_at(j) == TokenKind::RBracket {
            (tags, stereos, j)
        } else {
            match self.ident_view(j) {
                Some(v) => self.profile_values(
                    j + 1,
                    if is_tags {
                        tags.push((v, self.spanned[j].source_info))
                    } else {
                        tags
                    },
                    if is_stereos {
                        stereos.push((v, self.spanned[j].source_info))
                    } else {
                        stereos
                    },
                    is_tags,
                    is_stereos,
                ),
                None => if self.kind_at(j) == TokenKind::Comma {
                    self.profile_values(j + 1, tags, stereos, is_tags, is_stereos)
                } else {
                    (tags, stereos, j)
                },
            }
        }
    }

    /// The body of a profile from `j` up to its `}` (not read).
    pub open spec fn profile_body(
        &self,
        j: int,
        tags: Seq<(Seq<char>, SourceInfo)>,
        stereos: Seq<(Seq<char>, SourceInfo)>,
    ) -> Result<(Seq<(Seq<char>, SourceInfo)>, Seq<(Seq<char>, SourceInfo)>, int), Fail>
        decreases self.toks.len() - j,
    {
        if j < 0 || j >= self.toks.len() || self.kind_at(j) == TokenKind::RBrace {
            Ok((tags, stereos, j))
        } else {
            match self.ident_view(j) {
                Some(prop) => {
                    let is_tags = prop == "tags"@;
                    let is_stereos = prop == "stereotypes"@;
                    if is_tags || is_stereos {
                        match self.expect(j + 1, TokenKind::Colon) {
                            Err(f) => Err(f),
                            Ok(q1) => match self.expect(q1, TokenKind::LBracket) {
                                Err(f) => Err(f),
                                Ok(q2) => {
                                    let (t2, s2, q3) = self.profile_values(q2, tags, stereos, is_tags, is_stereos);
                                    match self.expect(q3, TokenKind::RBracket) {
                                        Err(f) => Err(f),
                                        Ok(q4) => match self.expect(q4, TokenKind::Semi) {
                                            Err(f) => Err(f),
                                            Ok(q5) => if q5 > j {
                                                self.profile_body(q5, t2, s2)
                                            } else {
                                                Ok((t2, s2, q5))
                                            },
                                        },
                                    }
                                },
                            },
                        }
                    } else {
                        self.profile_body(j + 1, tags, stereos)
                    }
                },
                None => self.profile_body(j + 1, tags, stereos),
            }
        }
    }

    /// `Profile a::Name { tags: [...]; stereotypes: [...]; }` with
    /// `Profile` at `j`.
    pub open spec fn profile_at(&self, j: int) -> Result<(ProfileView, int), Fail> {
        match self.qualified_name(j + 1, Seq::empty()) {
            Err(f) => Err(f),
            Ok((pkg, name, p1)) => match self.expect(p1, TokenKind::LBrace) {
                Err(f) => Err(f),
                Ok(p2) => match self.profile_body(p2, Seq::empty(), Seq::empty()) {
                    Err(f) => Err(f),
                    Ok((tags, stereos, p3)) => match self.expect(p3, TokenKind::RBrace) {
                        Err(f) => Err(f),
                        Ok(p4) => Ok(
                            (
                                ProfileView {
                                    package: pkg,
                                    name,
                                    tags,
                                    stereotypes: stereos,
                                    source_info: joined_info(
                                        self.spanned[j].source_info,
                                        self.spanned[p3].source_info,
                                    ),
                                },
                                p4,
                            ),
                        ),
                    },
                },
            },
        }
    }

    // ───────────────────────────── functions ─────────────────────────────

    /// A function header from `j` up to its body's `{` (not read): a `<`
    /// is refused.
    pub open spec fn function_header(&self, j: int) -> Result<int, Fail>
        decreases self.toks.len() - j,
    {
        if j < 0 || j >= self.toks.len() || self.kind_at(j) == TokenKind::LBrace {
            Ok(j)
        } else if self.kind_at(j) == TokenKind::Lt {
            Err(Fail::TypeParams(j))
        } else {
            self.function_header(j + 1)
        }
    }

    /// A function body from `j` at brace depth `depth`, up to and
    /// including the `}` that closes it; `->subType(` and islands with no
    /// registered grammar are refused.
    pub open spec fn function_body(&self, j: int, depth: int) -> Result<int, Fail>
        decreases self.toks.len() - j,
    {
        if j < 0 || j >= self.toks.len() || depth <= 0 {
            Ok(j)
        } else {
            let k = self.kind_at(j);
            if k == TokenKind::LBrace {
                self.function_body(j + 1, depth + 1)
            } else if k == TokenKind::RBrace {
                if depth == 1 {
                    Ok(j + 1)
                } else {
                    self.function_body(j + 1, depth - 1)
                }
            } else if k == TokenKind::Arrow && j + 2 < self.toks.len() && self.name_view(j + 1) == Some(
                "subType"@,
            ) {
                Err(Fail::SubType(j))
            } else if k == TokenKind::IslandExtendedOpen && !self.plugins.has_island(self.toks[j].text()) {
                Err(Fail::Island(j))
            } else {
                self.function_body(j + 1, depth)
            }
        }
    }

    /// A brace block from `j` at depth `depth`, up to and including its
    /// closing `}`.
    pub open spec fn block_end(&self, j: int, depth: int) -> int
        decreases self.toks.len() - j,
    {
        if j < 0 || j >= self.toks.len() || depth <= 0 {
            j
        } else {
            let k = self.kind_at(j);
            self.block_end(
                j + 1,
                if k == TokenKind::LBrace {
                    depth + 1
                } else if k == TokenKind::RBrace {
                    depth - 1
                } else {
                    depth
                },
            )
        }
    }

    /// A function with `function` at `j`: header, body, and the second
    /// body of a mapping function if one follows.
    pub open spec fn function_at(&self, j: int) -> Result<int, Fail> {
        match self.function_header(j + 1) {
            Err(f) => Err(f),
            Ok(p) => {
                let p1 = if self.is_at(p, TokenKind::LBrace) {
                    p + 1
                } else {
                    p
                };
                match self.function_body(p1, 1) {
                    Err(f) => Err(f),
                    Ok(p2) => if self.is_at(p2, TokenKind::LBrace) {
                        Ok(self.block_end(p2 + 1, 1))
                    } else {
                        Ok(p2)
                    },
                }
            },
        }
    }

    // ───────────────────────────── sections ─────────────────────────────

    /// The elements of a `###Pure` section from `j` (after `acc`) up to the
    /// next section header or the end.
    pub open spec fn section_at(&self, j: int, acc: Seq<ElementView>) -> Result<(Seq<ElementView>, int), Fail>
        decreases self.toks.len() - j,
    {
        if j < 0 || j >= self.toks.len() {
            Ok((acc, j))
        } else {
            let k = self.kind_at(j);
            if k == TokenKind::KeywordClass {
                match self.class_at(j) {
                    Err(f) => Err(f),
                    Ok((c, q)) => if q > j {
                        self.section_at(q, acc.push(ElementView::Class(c)))
                    } else {
                        Ok((acc, q))
                    },
                }
            } else if k == TokenKind::KeywordProfile {
                match self.profile_at(j) {
                    Err(f) => Err(f),
                    Ok((p, q)) => if q > j {
                        self.section_at(q, acc.push(ElementView::Profile(p)))
                    } else {
                        Ok((acc, q))
                    },
                }
            } else if k == TokenKind::KeywordFunction {
                match self.function_at(j) {
                    Err(f) => Err(f),
                    Ok(q) => if j < q <= self.toks.len() {
                        self.section_at(q, acc)
                    } else {
                        Ok((acc, q))
                    },
                }
            } else if k == TokenKind::SectionHeader {
                Ok((acc, j))
            } else {
                Err(Fail::Token(j))
            }
        }
    }

    /// Whether some section plugin is registered under `name`.
    pub open spec fn has_section_plugin(&self, name: Seq<char>) -> bool {
        exists|k: int|
            0 <= k < self.plugins.section_plugins@.len() && (#[trigger] self.plugins.section_plugins@[k]).0@
                == name
    }

    /// The answers of section plugins are what their contract allows: a
    /// successful section ends past its header, within the tokens.
    pub open spec fn answers_ok(&self, answers: Map<int, SectionAnswer>) -> bool {
        forall|j: int|
            #[trigger] answers.dom().contains(j) && answers[j] is Ok ==> j < answers[j]->Ok_0.1
                <= self.toks.len()
    }

    /// The elements of the document from `j` (after `acc`): `###Pure`
    /// sections, the first of which may omit its header, and sections of
    /// registered plugins, whose outcome is `answers` at their header.
    pub open spec fn document_from(&self, j: int, acc: Seq<ElementView>, answers: Map<int, SectionAnswer>) -> Result<
        Seq<ElementView>,
        Fail,
    >
        decreases self.toks.len() - j,
    {
        if j < 0 || j >= self.toks.len() {
            Ok(acc)
        } else {
            match self.toks[j] {
                Token::SectionHeader(name) => if name@ == "Pure"@ {
                    match self.section_at(j + 1, Seq::empty()) {
                        Err(f) => Err(f),
                        Ok((els, q)) => if j < q <= self.toks.len() {
                            self.document_from(q, acc + els, answers)
                        } else {
                            Ok(acc + els)
                        },
                    }
                } else if self.has_section_plugin(name@) {
                    match answers[j] {
                        Err(_) => Err(Fail::Plugin(j)),
                        Ok((els, q)) => if j < q <= self.toks.len() {
                            self.document_from(q, acc + els, answers)
                        } else {
                            Ok(acc + els)
                        },
                    }
                } else {
                    Err(Fail::Section(name@))
                },
                _ => match self.section_at(j, Seq::empty()) {
                    Err(f) => Err(f),
                    Ok((els, q)) => if j < q <= self.toks.len() {
                        self.document_from(q, acc + els, answers)
                    } else {
                        Ok(acc + els)
                    },
                },
            }
        }

    }
}

/// Inserting an answer at a fresh header keeps the answers within the
/// plugins' contract (for a successful answer that ends past the header,
/// within the tokens) and extends them.
pub proof fn lemma_answers_insert(inp: Input, b: Map<int, SectionAnswer>, k: int, v: SectionAnswer)
    requires
        inp.answers_ok(b),
        !b.dom().contains(k),
        v is Ok ==> k < v->Ok_0.1 <= inp.toks.len(),
    ensures
        inp.answers_ok(b.insert(k, v)),
        answers_extend(b.insert(k, v), b),
        answers_extend(b.insert(k, v), b.insert(k, v)),
        answers_extend(b, b),
{
    assert forall|j: int| #[trigger] b.insert(k, v).dom().contains(j) && b.insert(k, v)[j] is Ok implies j
        < b.insert(k, v)[j]->Ok_0.1 <= inp.toks.len() by {
        if j != k {
            assert(b.dom().contains(j));
        }
    }
}

/// What extends `b` with `v` at a fresh `k` extends `b` and holds `v`.
pub proof fn lemma_extend_insert(a: Map<int, SectionAnswer>, b: Map<int, SectionAnswer>, k: int, v: SectionAnswer)
    requires
        answers_extend(a, b.insert(k, v)),
        !b.dom().contains(k),
    ensures
        answers_extend(a, b),
        a.dom().contains(k),
        a[k] == v,
{
    assert(b.insert(k, v).dom().contains(k));
    assert forall|j: int| #[trigger] b.dom().contains(j) implies a.dom().contains(j) && a[j] == b[j] by {
        assert(b.insert(k, v).dom().contains(j));
    }
}

/// A tagged-value list `{profile.tag = 'text'}` reads as the one tagged
/// value whose profile is the first identifier, whose tag is the second
/// and whose value is the string's text, and ends after the `}`.
pub proof fn lemma_one_tagged_value(inp: Input, j: int, profile: String, tag: String, text: String)
    requires
        0 <= j,
        j + 7 <= inp.toks.len(),
        inp.toks[j] == Token::LBrace,
        inp.toks[j + 1] == Token::Ident(profile),
        inp.toks[j + 2] == Token::Dot,
        inp.toks[j + 3] == Token::Ident(tag),
        inp.toks[j + 4] == Token::Eq,
        inp.toks[j + 5] == Token::StringLit(text),
        inp.toks[j + 6] == Token::RBrace,
    ensures
        inp.tagged_values_at(j) == Ok::<_, Fail>((seq![(profile@, tag@, text@)], j + 7)),
{
    let acc = Seq::<(Seq<char>, Seq<char>, Seq<char>)>::empty();
    assert(inp.opens_tagged_values(j));
    assert(inp.tagged_value_item(j + 1, acc) == Ok::<_, Fail>((acc.push((profile@, tag@, text@)), j + 6)));
    assert(inp.tagged_value_list(j + 6, acc.push((profile@, tag@, text@))) == Ok::<_, Fail>(
        (acc.push((profile@, tag@, text@)), j + 7),
    ));
    assert(acc.push((profile@, tag@, text@)) =~= seq![(profile@, tag@, text@)]);
}

} // verus!
