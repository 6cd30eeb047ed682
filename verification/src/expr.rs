//! Pratt parsing of Pure expressions.
use vstd::prelude::*;

use crate::ast::{
    ArithOp, BoolOp, CompOp, Expression, FunctionApplication, Lambda, Literal, PropertyAccess,
    SourceInfo, Variable,
};
use crate::lexer::{Token, TokenKind};
use crate::grammar::{Fail, Input};
use crate::parser::{ParseError, Parser};

verus! {

/// Binding power of infix operators, weakest first.
#[derive(Debug, Clone, Copy, PartialEq, Eq, Structural)]
pub enum Precedence {
    Lowest,
    Lambda,
    LogicalOr,
    LogicalAnd,
    Equality,
    Relational,
    Additive,
    Multiplicative,
    Prefix,
    MethodCall,
    Call,
    Property,
}

impl Precedence {
    /// The numeric binding power (0 for `Lowest` up to 11 for `Property`).
    pub open spec fn spec_level(self) -> u8 {
        match self {
            Precedence::Lowest => 0,
            Precedence::Lambda => 1,
            Precedence::LogicalOr => 2,
            Precedence::LogicalAnd => 3,
            Precedence::Equality => 4,
            Precedence::Relational => 5,
            Precedence::Additive => 6,
            Precedence::Multiplicative => 7,
            Precedence::Prefix => 8,
            Precedence::MethodCall => 9,
            Precedence::Call => 10,
            Precedence::Property => 11,
        }
    }

    /// The numeric binding power.
    #[verifier::when_used_as_spec(spec_level)]
    pub fn level(self) -> (r: u8)
        ensures
            r == self.spec_level(),
    {
        match self {
            Precedence::Lowest => 0,
            Precedence::Lambda => 1,
            Precedence::LogicalOr => 2,
            Precedence::LogicalAnd => 3,
            Precedence::Equality => 4,
            Precedence::Relational => 5,
            Precedence::Additive => 6,
            Precedence::Multiplicative => 7,
            Precedence::Prefix => 8,
            Precedence::MethodCall => 9,
            Precedence::Call => 10,
            Precedence::Property => 11,
        }
    }
}

/// How tightly a token binds as an infix operator.
pub open spec fn binding_power(k: TokenKind) -> Precedence {
    match k {
        TokenKind::Dot => Precedence::Property,
        TokenKind::LParen => Precedence::Call,
        TokenKind::Arrow => Precedence::MethodCall,
        TokenKind::Star | TokenKind::Slash => Precedence::Multiplicative,
        TokenKind::Plus | TokenKind::Minus => Precedence::Additive,
        TokenKind::Lt | TokenKind::Lte | TokenKind::Gt | TokenKind::Gte => Precedence::Relational,
        TokenKind::EqEq | TokenKind::NotEq => Precedence::Equality,
        TokenKind::And => Precedence::LogicalAnd,
        TokenKind::Or => Precedence::LogicalOr,
        TokenKind::Pipe => Precedence::Lambda,
        _ => Precedence::Lowest,
    }
}

/// The arithmetic operator a token stands for.
pub open spec fn arith_op(k: TokenKind) -> Option<ArithOp> {
    match k {
        TokenKind::Plus => Some(ArithOp::Add),
        TokenKind::Minus => Some(ArithOp::Subtract),
        TokenKind::Star => Some(ArithOp::Multiply),
        TokenKind::Slash => Some(ArithOp::Divide),
        _ => None,
    }
}

/// The comparison operator a token stands for.
pub open spec fn comp_op(k: TokenKind) -> Option<CompOp> {
    match k {
        TokenKind::EqEq => Some(CompOp::Eq),
        TokenKind::NotEq => Some(CompOp::NotEq),
        TokenKind::Lt => Some(CompOp::Lt),
        TokenKind::Lte => Some(CompOp::Lte),
        TokenKind::Gt => Some(CompOp::Gt),
        TokenKind::Gte => Some(CompOp::Gte),
        _ => None,
    }
}

/// The boolean operator a token stands for.
pub open spec fn bool_op(k: TokenKind) -> Option<BoolOp> {
    match k {
        TokenKind::And => Some(BoolOp::And),
        TokenKind::Or => Some(BoolOp::Or),
        _ => None,
    }
}

// ───────────────────────────── expressions as read ─────────────────────────────

/// An expression as a mathematical value, without locations.
pub enum ExprView {
    Variable(Seq<char>),
    Lambda(Seq<Seq<char>>, Seq<ExprView>),
    Application(Seq<char>, Seq<ExprView>),
    Property(Seq<char>, Option<Box<ExprView>>),
    Str(Seq<char>),
    Int(i64),
    Float(Seq<char>),
    Bool(bool),
    Collection(Seq<ExprView>),
    Not(Box<ExprView>),
    Arith(ArithOp, Box<ExprView>, Box<ExprView>),
    Comp(CompOp, Box<ExprView>, Box<ExprView>),
    Logic(BoolOp, Box<ExprView>, Box<ExprView>),
    Other,
}

/// The value an expression denotes.
pub open spec fn expr_view(e: Expression) -> ExprView
    decreases e,
{
    match e {
        Expression::Variable(v) => ExprView::Variable(v.name@),
        Expression::Lambda(l) => ExprView::Lambda(
            param_names(l.parameters@),
            Seq::new(
                l.body@.len(),
                |i: int|
                    if 0 <= i < l.body@.len() {
                        expr_view(l.body@[i])
                    } else {
                        ExprView::Other
                    },
            ),
        ),
        Expression::Application(a) => ExprView::Application(
            a.function_name@,
            Seq::new(
                a.parameters@.len(),
                |i: int|
                    if 0 <= i < a.parameters@.len() {
                        expr_view(a.parameters@[i])
                    } else {
                        ExprView::Other
                    },
            ),
        ),
        Expression::Property(p) => ExprView::Property(
            p.property_name@,
            match p.target {
                Some(t) => Some(Box::new(expr_view(*t))),
                None => None,
            },
        ),
        Expression::Literal(l) => match l {
            Literal::String(s, _) => ExprView::Str(s@),
            Literal::Integer(i, _) => ExprView::Int(i),
            Literal::Float(f, _) => ExprView::Float(f@),
            Literal::Boolean(b, _) => ExprView::Bool(b),
            _ => ExprView::Other,
        },
        Expression::Collection(v) => ExprView::Collection(
            Seq::new(
                v@.len(),
                |i: int|
                    if 0 <= i < v@.len() {
                        expr_view(v@[i])
                    } else {
                        ExprView::Other
                    },
            ),
        ),
        Expression::Not(b) => ExprView::Not(Box::new(expr_view(*b))),
        Expression::ArithmeticOp { op, left, right } => ExprView::Arith(
            op,
            Box::new(expr_view(*left)),
            Box::new(expr_view(*right)),
        ),
        Expression::ComparisonOp { op, left, right } => ExprView::Comp(
            op,
            Box::new(expr_view(*left)),
            Box::new(expr_view(*right)),
        ),
        Expression::BooleanOp { op, left, right } => ExprView::Logic(
            op,
            Box::new(expr_view(*left)),
            Box::new(expr_view(*right)),
        ),
        _ => ExprView::Other,
    }
}

/// The names of lambda parameters.
pub open spec fn param_names(ps: Seq<Variable>) -> Seq<Seq<char>> {
    Seq::new(ps.len(), |i: int| ps[i].name@)
}

/// The values of a list of expressions.
pub open spec fn exprs_view(s: Seq<Expression>) -> Seq<ExprView> {
    Seq::new(s.len(), |i: int| expr_view(s[i]))
}

/// A variable with no type, no multiplicity and no location.
pub open spec fn plain(v: Variable) -> bool {
    v.variable_type.is_none() && v.multiplicity.is_none() && v.source_info.is_dummy()
}

/// No location anywhere in the expression, and plain variables: what
/// the parser produces.
pub open spec fn unlocated_expr(e: Expression) -> bool
    decreases e,
{
    match e {
        Expression::Variable(v) => plain(v),
        Expression::Lambda(l) => l.source_info.is_dummy() && (forall|i: int|
            0 <= i < l.parameters@.len() ==> plain(#[trigger] l.parameters@[i])) && (forall|i: int|
            0 <= i < l.body@.len() ==> unlocated_expr(#[trigger] l.body@[i])),
        Expression::Application(a) => a.source_info.is_dummy() && forall|i: int|
            0 <= i < a.parameters@.len() ==> unlocated_expr(#[trigger] a.parameters@[i]),
        Expression::Property(p) => p.source_info.is_dummy() && match p.target {
            Some(t) => unlocated_expr(*t),
            None => true,
        },
        Expression::Literal(l) => match l {
            Literal::String(_, si) => si.is_dummy(),
            Literal::Integer(_, si) => si.is_dummy(),
            Literal::Float(_, si) => si.is_dummy(),
            Literal::Boolean(_, si) => si.is_dummy(),
            _ => false,
        },
        Expression::Collection(v) => forall|i: int| 0 <= i < v@.len() ==> unlocated_expr(#[trigger] v@[i]),
        Expression::Not(b) => unlocated_expr(*b),
        Expression::ArithmeticOp { left, right, .. } => unlocated_expr(*left) && unlocated_expr(*right),
        Expression::ComparisonOp { left, right, .. } => unlocated_expr(*left) && unlocated_expr(*right),
        Expression::BooleanOp { left, right, .. } => unlocated_expr(*left) && unlocated_expr(*right),
        _ => false,
    }
}

impl Input {
    /// An expression at `j` whose operators bind tighter than `prec`.
    pub open spec fn expr_at(&self, j: int, prec: int) -> Result<(ExprView, int), Fail>
        decreases self.toks.len() - j, 2int,
    {
        if j < 0 || j >= self.toks.len() {
            Err(Fail::Eof)
        } else {
            match self.prefix_at(j) {
                Err(f) => Err(f),
                Ok((left, q)) => if j < q <= self.toks.len() {
                    self.infix_loop(q, prec, left)
                } else {
                    Ok((left, q))
                },
            }
        }
    }

    /// Operators binding tighter than `prec` applied, from `j`, to `left`.
    pub open spec fn infix_loop(&self, j: int, prec: int, left: ExprView) -> Result<(ExprView, int), Fail>
        decreases self.toks.len() - j, 1int,
    {
        if j < 0 || j >= self.toks.len() || prec >= binding_power(self.kind_at(j)).spec_level() {
            Ok((left, j))
        } else {
            match self.infix_at(j, left) {
                Err(f) => Err(f),
                Ok((e, q)) => if j < q <= self.toks.len() {
                    self.infix_loop(q, prec, e)
                } else {
                    Ok((e, q))
                },
            }
        }
    }

    /// What starts an expression, at `j`.
    pub open spec fn prefix_at(&self, j: int) -> Result<(ExprView, int), Fail>
        decreases self.toks.len() - j, 1int,
    {
        if j < 0 || j >= self.toks.len() {
            Err(Fail::Eof)
        } else {
            match self.toks[j] {
                Token::Variable(v) => if self.is_at(j + 1, TokenKind::Pipe) {
                    match self.expr_at(j + 2, 0) {
                        Err(f) => Err(f),
                        Ok((body, q)) => Ok((ExprView::Lambda(seq![v@], seq![body]), q)),
                    }
                } else {
                    Ok((ExprView::Variable(v@), j + 1))
                },
                Token::StringLit(s) => Ok((ExprView::Str(s@), j + 1)),
                Token::Integer(i) => Ok((ExprView::Int(i), j + 1)),
                Token::Float(f) => Ok((ExprView::Float(f@), j + 1)),
                Token::Bool(b) => Ok((ExprView::Bool(b), j + 1)),
                Token::Ident(name) => if self.is_at(j + 1, TokenKind::LParen) {
                    match self.args_at(j + 2, TokenKind::RParen) {
                        Err(f) => Err(f),
                        Ok((items, q)) => match self.expect(q, TokenKind::RParen) {
                            Err(f) => Err(f),
                            Ok(q2) => Ok((ExprView::Application(name@, items), q2)),
                        },
                    }
                } else {
                    Err(Fail::Token(j))
                },
                Token::LBracket => match self.args_at(j + 1, TokenKind::RBracket) {
                    Err(f) => Err(f),
                    Ok((items, q)) => match self.expect(q, TokenKind::RBracket) {
                        Err(f) => Err(f),
                        Ok(q2) => Ok((ExprView::Collection(items), q2)),
                    },
                },
                Token::LParen => match self.expr_at(j + 1, 0) {
                    Err(f) => Err(f),
                    Ok((e, q)) => match self.expect(q, TokenKind::RParen) {
                        Err(f) => Err(f),
                        Ok(q2) => Ok((e, q2)),
                    },
                },
                Token::Pipe => match self.expr_at(j + 1, 0) {
                    Err(f) => Err(f),
                    Ok((body, q)) => Ok((ExprView::Lambda(Seq::empty(), seq![body]), q)),
                },
                Token::Bang => match self.expr_at(j + 1, Precedence::Prefix.spec_level() as int) {
                    Err(f) => Err(f),
                    Ok((e, q)) => Ok((ExprView::Not(Box::new(e)), q)),
                },
                _ => Err(Fail::Token(j)),
            }
        }
    }

    /// A comma-separated list of expressions at `j`, empty if `close` (or
    /// the end) comes first.
    pub open spec fn args_at(&self, j: int, close: TokenKind) -> Result<(Seq<ExprView>, int), Fail>
        decreases self.toks.len() - j, 3int,
    {
        if j < 0 || j >= self.toks.len() || self.is_at(j, close) {
            Ok((Seq::empty(), j))
        } else {
            match self.expr_at(j, 0) {
                Err(f) => Err(f),
                Ok((first, q)) => if j < q <= self.toks.len() {
                    self.more_args(q, seq![first])
                } else {
                    Ok((seq![first], q))
                },
            }
        }
    }

    /// Further `, expr` items at `j`, after `acc`.
    pub open spec fn more_args(&self, j: int, acc: Seq<ExprView>) -> Result<(Seq<ExprView>, int), Fail>
        decreases self.toks.len() - j, 3int,
    {
        if !self.is_at(j, TokenKind::Comma) {
            Ok((acc, j))
        } else {
            match self.expr_at(j + 1, 0) {
                Err(f) => Err(f),
                Ok((e, q)) => if j < q <= self.toks.len() {
                    self.more_args(q, acc.push(e))
                } else {
                    Ok((acc.push(e), q))
                },
            }
        }
    }

    /// The operator at `j` applied to `left`.
    pub open spec fn infix_at(&self, j: int, left: ExprView) -> Result<(ExprView, int), Fail>
        decreases self.toks.len() - j, 0int,
    {
        if j < 0 || j >= self.toks.len() {
            Err(Fail::Eof)
        } else {
            let k = self.kind_at(j);
            let prec = binding_power(k).spec_level() as int;
            if arith_op(k) is Some {
                match self.expr_at(j + 1, prec) {
                    Err(f) => Err(f),
                    Ok((right, q)) => Ok((ExprView::Arith(arith_op(k)->0, Box::new(left), Box::new(right)), q)),
                }
            } else if comp_op(k) is Some {
                match self.expr_at(j + 1, prec) {
                    Err(f) => Err(f),
                    Ok((right, q)) => Ok((ExprView::Comp(comp_op(k)->0, Box::new(left), Box::new(right)), q)),
                }
            } else if bool_op(k) is Some {
                match self.expr_at(j + 1, prec) {
                    Err(f) => Err(f),
                    Ok((right, q)) => Ok((ExprView::Logic(bool_op(k)->0, Box::new(left), Box::new(right)), q)),
                }
            } else if k == TokenKind::Dot || k == TokenKind::Arrow {
                if j + 1 >= self.toks.len() {
                    Err(Fail::Eof)
                } else {
                    match self.toks[j + 1] {
                        Token::Ident(id) => if k == TokenKind::Dot {
                            Ok((ExprView::Property(id@, Some(Box::new(left))), j + 2))
                        } else {
                            match self.expect(j + 2, TokenKind::LParen) {
                                Err(f) => Err(f),
                                Ok(q) => match self.args_at(q, TokenKind::RParen) {
                                    Err(f) => Err(f),
                                    Ok((rest, q2)) => match self.expect(q2, TokenKind::RParen) {
                                        Err(f) => Err(f),
                                        Ok(q3) => Ok((ExprView::Application(id@, seq![left] + rest), q3)),
                                    },
                                },
                            }
                        },
                        _ => Err(Fail::Token(j + 1)),
                    }
                }
            } else {
                Err(Fail::Token(j))
            }
        }
    }
}

/// A variable reference with no type, no multiplicity and a dummy location.
fn plain_variable(name: String) -> (v: Variable)
    ensures
        v.name == name,
        v.variable_type.is_none(),
        v.multiplicity.is_none(),
        v.source_info.is_dummy(),
{
    Variable { name, variable_type: None, multiplicity: None, source_info: SourceInfo::dummy() }
}

impl<'a> Parser<'a> {
    /// Tokens left to read.
    pub open spec fn remaining(&self) -> int {
        self.toks().len() - self.position()
    }

    /// How tightly the token at `j` binds as an infix operator.
    fn infix_binding_power(&self, j: usize) -> (p: Precedence)
        requires
            j < self.toks().len(),
        ensures
            p == binding_power(self.kind_at(j as int)),
    {
        let k = self.kind_of(j);
        match k {
            TokenKind::Dot => Precedence::Property,
            TokenKind::LParen => Precedence::Call,
            TokenKind::Arrow => Precedence::MethodCall,
            TokenKind::Star | TokenKind::Slash => Precedence::Multiplicative,
            TokenKind::Plus | TokenKind::Minus => Precedence::Additive,
            TokenKind::Lt | TokenKind::Lte | TokenKind::Gt | TokenKind::Gte => Precedence::Relational,
            TokenKind::EqEq | TokenKind::NotEq => Precedence::Equality,
            TokenKind::And => Precedence::LogicalAnd,
            TokenKind::Or => Precedence::LogicalOr,
            TokenKind::Pipe => Precedence::Lambda,
            _ => Precedence::Lowest,
        }
    }

    /// Parses an expression whose operators bind tighter than `precedence`.
    pub fn parse_expression(&mut self, precedence: u8) -> (r: Result<Expression, ParseError>)
        ensures
            final(self).advanced(old(self)),
            r is Ok ==> final(self).position() > old(self).position(),
            match old(self).input().expr_at(old(self).position(), precedence as int) {
                Ok((ev, q)) => r is Ok && expr_view(r->Ok_0) == ev && unlocated_expr(r->Ok_0)
                    && final(self).position() == q,
                Err(f) => r is Err && old(self).input().fails_with(r->Err_0, f),
            },
        decreases old(self).remaining(), 2int,
    {
        proof {
            self.lemma_position();
        }
        let mut left = self.parse_prefix()?;
        loop
            invariant
                self.advanced(old(self)),
                self.position() > old(self).position(),
                unlocated_expr(left),
                old(self).input().expr_at(old(self).position(), precedence as int) == old(
                    self,
                ).input().infix_loop(self.position(), precedence as int, expr_view(left)),
            ensures
                self.advanced(old(self)),
                self.position() > old(self).position(),
                unlocated_expr(left),
                old(self).input().expr_at(old(self).position(), precedence as int) == Ok::<
                    (ExprView, int),
                    Fail,
                >((expr_view(left), self.position())),
            decreases self.remaining(),
        {
            if !self.has_more() {
                break ;
            }
            let p = self.current();
            let next_prec = self.infix_binding_power(p);
            if precedence >= next_prec.level() {
                break ;
            }
            left = self.parse_infix(left)?;
        }
        Ok(left)
    }

    /// Parses what can start an expression: a literal, a variable (or a
    /// one-parameter lambda `$x | body`), a call `f(args)`, a collection
    /// `[items]`, a parenthesized expression, a lambda `| body` or a
    /// negation `!e`.
    fn parse_prefix(&mut self) -> (r: Result<Expression, ParseError>)
        ensures
            final(self).advanced(old(self)),
            r is Ok ==> final(self).position() > old(self).position(),
            match old(self).input().prefix_at(old(self).position()) {
                Ok((ev, q)) => r is Ok && expr_view(r->Ok_0) == ev && unlocated_expr(r->Ok_0)
                    && final(self).position() == q,
                Err(f) => r is Err && old(self).input().fails_with(r->Err_0, f),
            },
        decreases old(self).remaining(), 1int,
    {
        proof {
            self.lemma_position();
        }
        if !self.has_more() {
            return Err(ParseError::UnexpectedEof);
        }
        let p = self.current();
        let token = self.token_at(p);
        if let Token::Variable(v) = &token {
            self.step();
            if self.at_kind(TokenKind::Pipe) {
                let mut params: Vec<Variable> = Vec::new();
                params.push(plain_variable(v.clone()));
                proof {
                    assert(param_names(params@) =~= seq![v@]);
                }
                return self.parse_lambda_prefix(params);
            }
            return Ok(Expression::Variable(plain_variable(v.clone())));
        }
        self.step();
        match token {
            Token::StringLit(s) => Ok(Expression::Literal(Literal::String(s, SourceInfo::dummy()))),
            Token::Integer(i) => Ok(Expression::Literal(Literal::Integer(i, SourceInfo::dummy()))),
            Token::Float(f) => Ok(Expression::Literal(Literal::Float(f, SourceInfo::dummy()))),
            Token::Bool(b) => Ok(Expression::Literal(Literal::Boolean(b, SourceInfo::dummy()))),
            Token::Ident(name) => {
                if self.at_kind(TokenKind::LParen) {
                    self.step();
                    let params = self.parse_arguments(TokenKind::RParen)?;
                    self.expect_token(TokenKind::RParen)?;
                    let e = Expression::Application(
                        FunctionApplication {
                            function_name: name,
                            parameters: params,
                            source_info: SourceInfo::dummy(),
                        },
                    );
                    proof {
                        lemma_expr_view_lists(e);
                    }
                    Ok(e)
                } else {
                    Err(ParseError::UnexpectedToken(Token::Ident(name), p))
                }
            },
            Token::LBracket => {
                let items = self.parse_arguments(TokenKind::RBracket)?;
                self.expect_token(TokenKind::RBracket)?;
                let e = Expression::Collection(items);
                proof {
                    lemma_expr_view_lists(e);
                }
                Ok(e)
            },
            Token::LParen => {
                let expr = self.parse_expression(0)?;
                self.expect_token(TokenKind::RParen)?;
                Ok(expr)
            },
            Token::Pipe => {
                let body = self.parse_expression(0)?;
                let mut bodies: Vec<Expression> = Vec::new();
                bodies.push(body);
                let params: Vec<Variable> = Vec::new();
                proof {
                    assert(bodies@ =~= seq![body]);
                    assert(param_names(params@) =~= Seq::<Seq<char>>::empty());
                }
                let e = Expression::Lambda(
                    Lambda { parameters: params, body: bodies, source_info: SourceInfo::dummy() },
                );
                proof {
                    lemma_expr_view_lists(e);
                    assert(exprs_view(seq![body]) =~= seq![expr_view(body)]);
                }
                Ok(e)
            },
            Token::Bang => {
                let right = self.parse_expression(Precedence::Prefix.level())?;
                Ok(Expression::Not(Box::new(right)))
            },
            _ => Err(ParseError::UnexpectedToken(token, p)),
        }
    }

    /// Parses a comma-separated list of expressions, unless the next token
    /// is `close` (or the input ends).
    fn parse_arguments(&mut self, close: TokenKind) -> (r: Result<Vec<Expression>, ParseError>)
        ensures
            final(self).advanced(old(self)),
            match old(self).input().args_at(old(self).position(), close) {
                Ok((evs, q)) => r is Ok && exprs_view(r->Ok_0@) == evs && (forall|i: int|
                    0 <= i < r->Ok_0@.len() ==> unlocated_expr(#[trigger] r->Ok_0@[i]))
                    && final(self).position() == q,
                Err(f) => r is Err && old(self).input().fails_with(r->Err_0, f),
            },
        decreases old(self).remaining(), 3int,
    {
        proof {
            self.lemma_position();
        }
        let mut items: Vec<Expression> = Vec::new();
        if self.has_more() && !self.at_kind(close) {
            let first = self.parse_expression(0)?;
            items.push(first);
            proof {
                assert(exprs_view(items@) =~= seq![expr_view(first)]);
            }
            while self.at_kind(TokenKind::Comma)
                invariant
                    self.advanced(old(self)),
                    self.position() > old(self).position(),
                    forall|i: int| 0 <= i < items@.len() ==> unlocated_expr(#[trigger] items@[i]),
                    old(self).input().args_at(old(self).position(), close) == old(self).input().more_args(
                        self.position(),
                        exprs_view(items@),
                    ),
                decreases self.remaining(),
            {
                let ghost before = exprs_view(items@);
                self.step();
                let next = self.parse_expression(0)?;
                items.push(next);
                proof {
                    assert(exprs_view(items@) =~= before.push(expr_view(next)));
                }
            }
        } else {
            proof {
                assert(exprs_view(items@) =~= Seq::<ExprView>::empty());
            }
        }
        Ok(items)
    }

    /// Parses the body of a lambda `params | body` (the `|` comes next).
    fn parse_lambda_prefix(&mut self, params: Vec<Variable>) -> (r: Result<Expression, ParseError>)
        requires
            old(self).is_at(old(self).position(), TokenKind::Pipe),
            forall|i: int| 0 <= i < params@.len() ==> plain(#[trigger] params@[i]),
        ensures
            final(self).advanced(old(self)),
            r is Ok ==> final(self).position() > old(self).position(),
            match old(self).input().expr_at(old(self).position() + 1, 0) {
                Ok((body, q)) => r is Ok && expr_view(r->Ok_0) == ExprView::Lambda(
                    param_names(params@),
                    seq![body],
                ) && unlocated_expr(r->Ok_0) && final(self).position() == q,
                Err(f) => r is Err && old(self).input().fails_with(r->Err_0, f),
            },
        decreases old(self).remaining(), 0int,
    {
        proof {
            self.lemma_position();
        }
        self.expect_token(TokenKind::Pipe)?;
        let body = self.parse_expression(0)?;
        let mut bodies: Vec<Expression> = Vec::new();
        bodies.push(body);
        proof {
            assert(bodies@ =~= seq![body]);
        }
        let e = Expression::Lambda(Lambda { parameters: params, body: bodies, source_info: SourceInfo::dummy() });
        proof {
            lemma_expr_view_lists(e);
            assert(exprs_view(seq![body]) =~= seq![expr_view(body)]);
        }
        Ok(e)
    }

    /// Parses the operator at the current position applied to `left`:
    /// arithmetic, comparison and boolean operators (right operand parsed at
    /// the operator's binding power), property access `.name` and method
    /// calls `->f(args)`, which become `f(left, args)`.
    fn parse_infix(&mut self, left: Expression) -> (r: Result<Expression, ParseError>)
        requires
            old(self).position() < old(self).toks().len(),
        ensures
            final(self).advanced(old(self)),
            r is Ok ==> final(self).position() > old(self).position(),
            match old(self).input().infix_at(old(self).position(), expr_view(left)) {
                Ok((ev, q)) => r is Ok && expr_view(r->Ok_0) == ev && (unlocated_expr(left) ==> unlocated_expr(
                    r->Ok_0,
                )) && final(self).position() == q,
                Err(f) => r is Err && old(self).input().fails_with(r->Err_0, f),
            },
        decreases old(self).remaining(), 0int,
    {
        proof {
            self.lemma_position();
        }
        let p = self.current();
        let token = self.token_at(p);
        let k = token.kind();
        let precedence = self.infix_binding_power(p);
        self.step();
        if k == TokenKind::Plus || k == TokenKind::Minus || k == TokenKind::Star || k
            == TokenKind::Slash {
            let right = self.parse_expression(precedence.level())?;
            let op = if k == TokenKind::Plus {
                ArithOp::Add
            } else if k == TokenKind::Minus {
                ArithOp::Subtract
            } else if k == TokenKind::Star {
                ArithOp::Multiply
            } else {
                ArithOp::Divide
            };
            Ok(Expression::ArithmeticOp { op, left: Box::new(left), right: Box::new(right) })
        } else if k == TokenKind::EqEq || k == TokenKind::NotEq || k == TokenKind::Lt || k
            == TokenKind::Lte || k == TokenKind::Gt || k == TokenKind::Gte {
            let right = self.parse_expression(precedence.level())?;
            let op = if k == TokenKind::EqEq {
                CompOp::Eq
            } else if k == TokenKind::NotEq {
                CompOp::NotEq
            } else if k == TokenKind::Lt {
                CompOp::Lt
            } else if k == TokenKind::Lte {
                CompOp::Lte
            } else if k == TokenKind::Gt {
                CompOp::Gt
            } else {
                CompOp::Gte
            };
            Ok(Expression::ComparisonOp { op, left: Box::new(left), right: Box::new(right) })
        } else if k == TokenKind::And || k == TokenKind::Or {
            let right = self.parse_expression(precedence.level())?;
            let op = if k == TokenKind::And {
                BoolOp::And
            } else {
                BoolOp::Or
            };
            Ok(Expression::BooleanOp { op, left: Box::new(left), right: Box::new(right) })
        } else if k == TokenKind::Dot {
            if !self.has_more() {
                return Err(ParseError::UnexpectedEof);
            }
            let q = self.current();
            let prop_name = match self.token_at(q) {
                Token::Ident(id) => id,
                other => {
                    return Err(ParseError::UnexpectedToken(other, q));
                },
            };
            self.step();
            Ok(
                Expression::Property(
                    PropertyAccess {
                        property_name: prop_name,
                        target: Some(Box::new(left)),
                        source_info: SourceInfo::dummy(),
                    },
                ),
            )
        } else if k == TokenKind::Arrow {
            if !self.has_more() {
                return Err(ParseError::UnexpectedEof);
            }
            let q = self.current();
            let func_name = match self.token_at(q) {
                Token::Ident(id) => id,
                other => {
                    return Err(ParseError::UnexpectedToken(other, q));
                },
            };
            self.step();
            self.expect_token(TokenKind::LParen)?;
            let mut params: Vec<Expression> = Vec::new();
            params.push(left);
            let mut rest = self.parse_arguments(TokenKind::RParen)?;
            let ghost rest_view = rest@;
            params.append(&mut rest);
            self.expect_token(TokenKind::RParen)?;
            let e = Expression::Application(
                FunctionApplication {
                    function_name: func_name,
                    parameters: params,
                    source_info: SourceInfo::dummy(),
                },
            );
            proof {
                lemma_expr_view_lists(e);
                assert(params@ =~= seq![left] + rest_view);
                assert(exprs_view(params@) =~= seq![expr_view(left)] + exprs_view(rest_view));
            }
            Ok(e)
        } else {
            Err(ParseError::UnexpectedToken(token, p))
        }
    }
}

/// The list views inside an expression's view.
proof fn lemma_expr_view_lists(e: Expression)
    ensures
        e matches Expression::Application(a) ==> expr_view(e) == ExprView::Application(
            a.function_name@,
            exprs_view(a.parameters@),
        ),
        e matches Expression::Collection(v) ==> expr_view(e) == ExprView::Collection(exprs_view(v@)),
        e matches Expression::Lambda(l) ==> expr_view(e) == ExprView::Lambda(
            param_names(l.parameters@),
            exprs_view(l.body@),
        ),
{
    match e {
        Expression::Application(a) => {
            if let ExprView::Application(_, v) = expr_view(e) {
                assert(v =~= exprs_view(a.parameters@));
            }
        },
        Expression::Collection(c) => {
            if let ExprView::Collection(v) = expr_view(e) {
                assert(v =~= exprs_view(c@));
            }
        },
        Expression::Lambda(l) => {
            if let ExprView::Lambda(_, v) = expr_view(e) {
                assert(v =~= exprs_view(l.body@));
            }
        },
        _ => {},
    }
}

} // verus!
