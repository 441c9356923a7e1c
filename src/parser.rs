//! Recursive-descent parser with one token of lookahead (two to tell a call
//! from a variable), building the tree that `codegen` lowers.
use vstd::prelude::*;
use crate::error::CompileError;
use crate::lexer::{Token, TokenKind};
use crate::node::{AST, AstV, BinaryOps, UnaryOps, asts_view, lemma_asts_view_push, lemma_asts_view_append};
use crate::types::{Type, TypeModel, lemma_models_of, models_of};

verus! {

broadcast use vstd::std_specs::vec::group_vec_axioms;

pub struct Parser {
    pub filepath: String,
    /// Index of the current token.
    pub pos: usize,
    pub tokens: Vec<Token>,
    /// Locals of the function being parsed, in declaration order; a later
    /// entry for a name overrides an earlier one.
    pub locals: Vec<(String, Type)>,
}

/// An expression as the parser builds it: `Load` wraps only variables, and
/// the target of an assignment is never wrapped in `Load`.
pub open spec fn expr_ok(a: AST) -> bool
    decreases a,
{
    match a {
        AST::Int(_) | AST::Float(_) => true,
        AST::Load(e) => *e is Variable,
        AST::UnaryOp(e, _) => expr_ok(*e),
        AST::BinaryOp(l, r, op) => (if op == BinaryOps::Assign {
            *l is Variable || (expr_ok(*l) && !(*l is Load))
        } else {
            expr_ok(*l)
        }) && expr_ok(*r),
        AST::FuncCall(_, args) => exprs_ok(args@),
        _ => false,
    }
}

pub open spec fn exprs_ok(s: Seq<AST>) -> bool
    decreases s,
{
    if s.len() == 0 {
        true
    } else {
        exprs_ok(s.drop_last()) && expr_ok(s.last())
    }
}

/// A statement as the parser builds it.
pub open spec fn stmt_ok(a: AST) -> bool
    decreases a,
{
    match a {
        AST::Nil => true,
        AST::ExprStmt(e) => expr_ok(*e),
        AST::Return(Some(e)) => expr_ok(*e),
        AST::Return(None) => true,
        AST::VariableDecl(_, _, init) => match init {
            Some(e) => expr_ok(*e),
            None => true,
        },
        AST::Block(v) => stmts_ok(v@),
        AST::If(c, t, e) => expr_ok(*c) && stmt_ok(*t) && stmt_ok(*e),
        AST::For(i, c, s, b) => stmt_ok(*i) && (*c is Nil || expr_ok(*c)) && (*s is Nil || expr_ok(
            *s,
        )) && stmt_ok(*b),
        AST::While(c, b) => expr_ok(*c) && stmt_ok(*b),
        _ => false,
    }
}

pub open spec fn stmts_ok(s: Seq<AST>) -> bool
    decreases s,
{
    if s.len() == 0 {
        true
    } else {
        stmts_ok(s.drop_last()) && stmt_ok(s.last())
    }
}

pub proof fn lemma_exprs_push(s: Seq<AST>, a: AST)
    requires
        exprs_ok(s),
        expr_ok(a),
    ensures
        exprs_ok(s.push(a)),
{
    assert(s.push(a).drop_last() =~= s);
}

pub proof fn lemma_stmts_push(s: Seq<AST>, a: AST)
    requires
        stmts_ok(s),
        stmt_ok(a),
    ensures
        stmts_ok(s.push(a)),
{
    assert(s.push(a).drop_last() =~= s);
}

pub proof fn lemma_stmts_append(s: Seq<AST>, t: Seq<AST>)
    requires
        stmts_ok(s),
        forall|i: int| 0 <= i < t.len() ==> stmt_ok(#[trigger] t[i]),
    ensures
        stmts_ok(s + t),
    decreases t.len(),
{
    if t.len() > 0 {
        lemma_stmts_append(s, t.drop_last());
        assert((s + t).drop_last() =~= s + t.drop_last());
        assert((s + t).last() == t.last());
    }
}

/// The value of a string of decimal digits.
pub open spec fn digits_value(s: Seq<char>) -> int
    decreases s.len(),
{
    if s.len() == 0 {
        0
    } else {
        digits_value(s.drop_last()) * 10 + (s.last() as int - '0' as int)
    }
}

pub open spec fn all_digits(s: Seq<char>) -> bool {
    forall|i: int| 0 <= i < s.len() ==> '0' <= #[trigger] s[i] && s[i] <= '9'
}

pub proof fn lemma_digits_value_nonneg(s: Seq<char>)
    requires
        all_digits(s),
    ensures
        digits_value(s) >= 0,
    decreases s.len(),
{
    if s.len() > 0 {
        assert(all_digits(s.drop_last()));
        lemma_digits_value_nonneg(s.drop_last());
    }
}

/// The value of a decimal literal, if it is one and fits in `u32`.
pub fn parse_digits(s: &str) -> (r: Option<u32>)
    ensures
        r is Some <==> (s@.len() > 0 && all_digits(s@) && digits_value(s@) <= u32::MAX),
        r matches Some(v) ==> v == digits_value(s@),
{
    let n = s.unicode_len();
    if n == 0 {
        return None;
    }
    let mut v: u64 = 0;
    let mut i: usize = 0;
    while i < n
        invariant
            n == s@.len(),
            i <= n,
            all_digits(s@.subrange(0, i as int)),
            v == digits_value(s@.subrange(0, i as int)),
            v <= u32::MAX,
        decreases n - i,
    {
        let c = s.get_char(i);
        proof {
            assert(s@.subrange(0, i + 1).drop_last() =~= s@.subrange(0, i as int));
        }
        if c < '0' || c > '9' {
            proof {
                assert(s@[i as int] == c);
            }
            return None;
        }
        let d = (c as u32 - '0' as u32) as u64;
        v = v * 10 + d;
        if v > u32::MAX as u64 {
            proof {
                lemma_digits_value_nonneg(s@.subrange(0, i + 1));
                assert(all_digits(s@.subrange(0, i + 1)));
                lemma_prefix_value_grows(s@, i + 1);
            }
            return None;
        }
        i += 1;
        proof {
            assert(all_digits(s@.subrange(0, i as int)));
        }
    }
    proof {
        assert(s@.subrange(0, n as int) =~= s@);
    }
    Some(v as u32)
}

/// A longer run of digits is worth at least as much as its prefix.
pub proof fn lemma_prefix_value_grows(s: Seq<char>, k: int)
    requires
        0 <= k <= s.len(),
        all_digits(s.subrange(0, k)),
    ensures
        all_digits(s) ==> digits_value(s) >= digits_value(s.subrange(0, k)),
    decreases s.len() - k,
{
    if k < s.len() && all_digits(s) {
        assert(all_digits(s.subrange(0, k + 1)));
        lemma_prefix_value_grows(s, k + 1);
        assert(s.subrange(0, k + 1).drop_last() =~= s.subrange(0, k));
        lemma_digits_value_nonneg(s.subrange(0, k));
    }
    if k == s.len() {
        assert(s.subrange(0, k) =~= s);
    }
}

/// Number of dots in `s`.
pub open spec fn dot_count(s: Seq<char>) -> nat
    decreases s.len(),
{
    if s.len() == 0 {
        0
    } else {
        dot_count(s.drop_last()) + if s.last() == '.' {
            1nat
        } else {
            0nat
        }
    }
}

fn count_dots(s: &str) -> (r: usize)
    ensures
        r == dot_count(s@),
{
    let n = s.unicode_len();
    let mut c: usize = 0;
    let mut i: usize = 0;
    while i < n
        invariant
            n == s@.len(),
            i <= n,
            c == dot_count(s@.subrange(0, i as int)),
            c <= i,
        decreases n - i,
    {
        proof {
            assert(s@.subrange(0, i + 1).drop_last() =~= s@.subrange(0, i as int));
        }
        if s.get_char(i) == '.' {
            c += 1;
        }
        i += 1;
    }
    proof {
        assert(s@.subrange(0, n as int) =~= s@);
    }
    c
}

impl Parser {
    pub open spec fn wf(&self) -> bool {
        self.pos <= self.tokens@.len()
    }

    /// The parser changed only by reading forward.
    pub open spec fn advanced(&self, next: &Parser) -> bool {
        &&& next.wf()
        &&& next.tokens == self.tokens
        &&& next.filepath == self.filepath
        &&& self.pos <= next.pos
    }

    /// Text of the current token; empty past the last one.
    pub open spec fn cur_val(&self) -> Seq<char> {
        if self.pos < self.tokens@.len() {
            self.tokens@[self.pos as int].val@
        } else {
            Seq::empty()
        }
    }

    pub fn new(path: String, tok: Vec<Token>) -> (r: Parser)
        ensures
            r.wf(),
            r.pos == 0,
            r.tokens == tok,
            r.filepath == path,
            r.locals@.len() == 0,
    {
        Parser { filepath: path, pos: 0, tokens: tok, locals: Vec::new() }
    }

    pub fn get_filepath(&self) -> (r: String)
        ensures
            r == self.filepath,
    {
        self.filepath.clone()
    }

    fn end_token(&self) -> (r: Token)
        ensures
            r.kind == TokenKind::Eof,
            r.val@.len() == 0,
    {
        let line = if self.tokens.len() > 0 {
            self.tokens[self.tokens.len() - 1].line
        } else {
            0
        };
        Token { kind: TokenKind::Eof, val: String::new(), line }
    }

    /// The current token; past the last one, an end-of-input token.
    pub fn cur(&self) -> (r: Token)
        requires
            self.wf(),
        ensures
            self.pos < self.tokens@.len() ==> r == self.tokens@[self.pos as int],
            self.pos >= self.tokens@.len() ==> r.kind == TokenKind::Eof && r.val@.len() == 0,
            r.val@ == self.cur_val(),
    {
        if self.pos < self.tokens.len() {
            self.tokens[self.pos].duplicate()
        } else {
            self.end_token()
        }
    }

    /// The token after the current one; past the last one, an end-of-input token.
    pub fn peek(&self) -> (r: Token)
        requires
            self.wf(),
        ensures
            self.pos + 1 < self.tokens@.len() ==> r == self.tokens@[self.pos + 1],
            self.pos + 1 >= self.tokens@.len() ==> r.kind == TokenKind::Eof && r.val@.len() == 0,
    {
        if self.pos < self.tokens.len() && self.pos + 1 < self.tokens.len() {
            self.tokens[self.pos + 1].duplicate()
        } else {
            self.end_token()
        }
    }

    /// The current token, consumed.
    pub fn next(&mut self) -> (r: Token)
        requires
            old(self).wf(),
        ensures
            old(self).advanced(final(self)),
            final(self).locals == old(self).locals,
            old(self).pos < old(self).tokens@.len() ==> r == old(self).tokens@[old(self).pos as int]
                && final(self).pos == old(self).pos + 1,
            old(self).pos >= old(self).tokens@.len() ==> r.kind == TokenKind::Eof && r.val@.len()
                == 0 && final(self).pos == old(self).pos,
    {
        let ret = self.cur();
        if self.pos < self.tokens.len() {
            self.pos += 1;
        }
        ret
    }

    /// Consumes the current token if its text is `s`.
    pub fn consume(&mut self, s: &str) -> (r: bool)
        requires
            old(self).wf(),
        ensures
            old(self).advanced(final(self)),
            final(self).locals == old(self).locals,
            r == (old(self).pos < old(self).tokens@.len() && old(self).cur_val() == s@),
            r ==> final(self).pos == old(self).pos + 1,
            !r ==> final(self).pos == old(self).pos,
    {
        if self.pos < self.tokens.len() && self.tokens[self.pos].matches(s) {
            self.pos += 1;
            true
        } else {
            false
        }
    }

    /// Consumes the current token, which must be `s`.
    pub fn consume_expected(&mut self, s: &str) -> (r: Result<(), CompileError>)
        requires
            old(self).wf(),
        ensures
            old(self).advanced(final(self)),
            final(self).locals == old(self).locals,
            r is Ok == (old(self).pos < old(self).tokens@.len() && old(self).cur_val() == s@),
            r is Ok ==> final(self).pos == old(self).pos + 1,
            r matches Err(e) ==> (e matches CompileError::UnexpectedToken(x, y, l) && x@ == s@ && y@
                == old(self).cur_val() && (old(self).pos < old(self).tokens@.len() ==> l
                == old(self).tokens@[old(self).pos as int].line)),
            r is Err ==> final(self).pos == old(self).pos,
    {
        if self.consume(s) {
            Ok(())
        } else {
            let t = self.cur();
            Err(CompileError::UnexpectedToken(String::from_str(s), t.val, t.line))
        }
    }

    /// Records a local of the function being parsed.
    pub fn new_lvar(&mut self, name: String, ty: Type)
        ensures
            final(self).locals@ == old(self).locals@.push((name, ty)),
            final(self).pos == old(self).pos,
            final(self).tokens == old(self).tokens,
            final(self).filepath == old(self).filepath,
    {
        self.locals.push((name, ty));
    }

    /// Reads an identifier.
    fn read_ident(&mut self) -> (r: Result<String, CompileError>)
        requires
            old(self).wf(),
        ensures
            old(self).advanced(final(self)),
            final(self).locals == old(self).locals,
            r is Ok <==> old(self).pos < old(self).tokens@.len() && old(self).tokens@[old(self).pos as int].kind
                == TokenKind::Ident,
            r matches Ok(n) ==> n@ == old(self).cur_val() && final(self).pos == old(self).pos + 1,
            r matches Err(e) ==> e is IdentifierExpected,
    {
        let t = self.cur();
        if !t.is_ident() {
            return Err(CompileError::IdentifierExpected(t.line));
        }
        self.next();
        Ok(t.val)
    }

    /// Reads a declaration specifier; `int` is the only one.
    fn read_declspec(&mut self) -> (r: Result<Type, CompileError>)
        requires
            old(self).wf(),
        ensures
            old(self).advanced(final(self)),
            final(self).locals == old(self).locals,
            r is Ok <==> old(self).pos < old(self).tokens@.len() && old(self).cur_val() == seq!['i', 'n', 't'],
            r matches Ok(t) ==> t == Type::Int && final(self).pos == old(self).pos + 1,
            r matches Err(e) ==> e is UnknownType,
    {
        proof {
            reveal_strlit("int");
            assert("int"@ =~= seq!['i', 'n', 't']);
        }
        let t = self.cur();
        if self.consume("int") {
            Ok(Type::Int)
        } else {
            Err(CompileError::UnknownType(t.line))
        }
    }

    /// Reads an array size: an integer literal.
    fn read_num(&mut self) -> (r: Result<u32, CompileError>)
        requires
            old(self).wf(),
        ensures
            old(self).advanced(final(self)),
            final(self).locals == old(self).locals,
            r is Ok ==> final(self).pos == old(self).pos + 1,
            r is Ok <==> old(self).pos < old(self).tokens@.len() && old(self).tokens@[old(self).pos as int].kind
                == TokenKind::IntNum && old(self).cur_val().len() > 0 && all_digits(old(self).cur_val())
                && digits_value(old(self).cur_val()) <= u32::MAX,
            r matches Ok(n) ==> old(self).tokens@[old(self).pos as int].kind == TokenKind::IntNum && n
                == digits_value(old(self).cur_val()),
            r matches Err(e) ==> e is NumericLiteralExpected || e is MalformedLiteral,
    {
        let t = self.next();
        match t.kind {
            TokenKind::IntNum => match parse_digits(t.val.as_str()) {
                Some(n) => Ok(n),
                None => Err(CompileError::MalformedLiteral(t.line)),
            },
            TokenKind::FloatNum => Err(CompileError::MalformedLiteral(t.line)),
            _ => Err(CompileError::NumericLiteralExpected(t.line)),
        }
    }

    /// Reads a numeric literal: an `int` that fits in 32 bits, or a
    /// floating-point literal with one dot.
    fn read_ast_num(&mut self) -> (r: Result<AST, CompileError>)
        requires
            old(self).wf(),
        ensures
            old(self).advanced(final(self)),
            final(self).locals == old(self).locals,
            r is Ok ==> final(self).pos == old(self).pos + 1,
            r is Ok <==> old(self).pos < old(self).tokens@.len() && match old(self).tokens@[old(self).pos as int].kind {
                TokenKind::IntNum => old(self).cur_val().len() > 0 && all_digits(old(self).cur_val())
                    && digits_value(old(self).cur_val()) <= i32::MAX,
                TokenKind::FloatNum => dot_count(old(self).cur_val()) == 1,
                _ => false,
            },
            r matches Ok(a) ==> expr_ok(a) && match old(self).tokens@[old(self).pos as int].kind {
                TokenKind::IntNum => a == AST::Int(digits_value(old(self).cur_val()) as i32)
                    && digits_value(old(self).cur_val()) <= i32::MAX,
                TokenKind::FloatNum => a matches AST::Float(s) && s@ == old(self).cur_val()
                    && dot_count(s@) == 1,
                _ => false,
            },
            r matches Err(e) ==> e is NumericLiteralExpected || e is MalformedLiteral,
            r matches Err(e) ==> (old(self).pos < old(self).tokens@.len() ==> {
                let tok = old(self).tokens@[old(self).pos as int];
                &&& (tok.kind == TokenKind::IntNum || tok.kind == TokenKind::FloatNum) ==> e
                    == CompileError::MalformedLiteral(tok.line)
                &&& !(tok.kind == TokenKind::IntNum || tok.kind == TokenKind::FloatNum) ==> e
                    == CompileError::NumericLiteralExpected(tok.line)
            }),
    {
        let t = self.next();
        match t.kind {
            TokenKind::IntNum => match parse_digits(t.val.as_str()) {
                Some(n) => if n <= i32::MAX as u32 {
                    Ok(AST::Int(n as i32))
                } else {
                    Err(CompileError::MalformedLiteral(t.line))
                },
                None => Err(CompileError::MalformedLiteral(t.line)),
            },
            TokenKind::FloatNum => if count_dots(t.val.as_str()) == 1 {
                Ok(AST::Float(t.val))
            } else {
                Err(CompileError::MalformedLiteral(t.line))
            },
            _ => Err(CompileError::NumericLiteralExpected(t.line)),
        }
    }
}

impl Parser {
    /// What a successful read promises: it moved forward over at least one
    /// token, and the table of locals is as it was.
    pub open spec fn read_one(&self, next: &Parser) -> bool {
        &&& self.advanced(next)
        &&& next.pos > self.pos
        &&& next.locals == self.locals
    }

    /// expr := assign
    pub fn read_expr(&mut self) -> (r: Result<AST, CompileError>)
        requires
            old(self).wf(),
        ensures
            old(self).advanced(final(self)),
            final(self).locals == old(self).locals,
            r matches Ok(a) ==> old(self).read_one(final(self)) && expr_ok(a),
            parsed(r, expr_g(old(self).tokens@, old(self).pos as int), final(self).pos as int),
        decreases old(self).tokens@.len() - old(self).pos, 22nat,
    {
        proof {
            unfold_expr_g(self.tokens@, self.pos as int);
        }
        self.read_assign()
    }

    /// assign := equality ("=" assign)?, right-associative; the target keeps
    /// its bare addressable form.
    pub fn read_assign(&mut self) -> (r: Result<AST, CompileError>)
        requires
            old(self).wf(),
        ensures
            old(self).advanced(final(self)),
            final(self).locals == old(self).locals,
            r matches Ok(a) ==> old(self).read_one(final(self)) && expr_ok(a),
            parsed(r, assign_g(old(self).tokens@, old(self).pos as int), final(self).pos as int),
        decreases old(self).tokens@.len() - old(self).pos, 21nat,
    {
        proof {
            lemma_symbols();
            unfold_assign_g(self.tokens@, self.pos as int);
        }
        let ret = self.read_equality()?;
        if self.consume("=") {
            let rhs = self.read_assign()?;
            let lhs = match ret {
                AST::Load(inner) => *inner,
                other => other,
            };
            Ok(AST::BinaryOp(Box::new(lhs), Box::new(rhs), BinaryOps::Assign))
        } else {
            Ok(ret)
        }
    }

    /// equality := relational (("==" | "!=") relational)*
    pub fn read_equality(&mut self) -> (r: Result<AST, CompileError>)
        requires
            old(self).wf(),
        ensures
            old(self).advanced(final(self)),
            final(self).locals == old(self).locals,
            r matches Ok(a) ==> old(self).read_one(final(self)) && expr_ok(a),
            parsed(r, equality_g(old(self).tokens@, old(self).pos as int), final(self).pos as int),
        decreases old(self).tokens@.len() - old(self).pos, 20nat,
    {
        proof {
            lemma_symbols();
            unfold_equality_g(self.tokens@, self.pos as int);
        }
        let ghost t = self.tokens@;
        let ghost p0 = self.pos as int;
        let mut ast = self.read_relational()?;
        loop
            invariant
                old(self).read_one(self),
                expr_ok(ast),
                t == self.tokens@,
                p0 == old(self).pos,
                equality_g(t, p0) == equality_rest(t, self.pos as int, ast@),
            decreases self.tokens@.len() - self.pos,
        {
            proof {
                lemma_symbols();
                unfold_equality_rest(t, self.pos as int, ast@);
            }
            if self.consume("==") {
                let rhs = self.read_relational()?;
                ast = AST::BinaryOp(Box::new(ast), Box::new(rhs), BinaryOps::Eq);
            } else if self.consume("!=") {
                let rhs = self.read_relational()?;
                ast = AST::BinaryOp(Box::new(ast), Box::new(rhs), BinaryOps::Ne);
            } else {
                return Ok(ast);
            }
        }
    }

    /// relational := add (("<" | "<=" | ">" | ">=") add)*; `a > b` is read as
    /// `b < a` and `a >= b` as `b <= a`.
    pub fn read_relational(&mut self) -> (r: Result<AST, CompileError>)
        requires
            old(self).wf(),
        ensures
            old(self).advanced(final(self)),
            final(self).locals == old(self).locals,
            r matches Ok(a) ==> old(self).read_one(final(self)) && expr_ok(a),
            parsed(r, relational_g(old(self).tokens@, old(self).pos as int), final(self).pos as int),
        decreases old(self).tokens@.len() - old(self).pos, 18nat,
    {
        proof {
            lemma_symbols();
            unfold_relational_g(self.tokens@, self.pos as int);
        }
        let ghost t = self.tokens@;
        let ghost p0 = self.pos as int;
        let mut ast = self.read_add()?;
        loop
            invariant
                old(self).read_one(self),
                expr_ok(ast),
                t == self.tokens@,
                p0 == old(self).pos,
                relational_g(t, p0) == relational_rest(t, self.pos as int, ast@),
            decreases self.tokens@.len() - self.pos,
        {
            proof {
                lemma_symbols();
                unfold_relational_rest(t, self.pos as int, ast@);
            }
            if self.consume("<") {
                let rhs = self.read_add()?;
                ast = AST::BinaryOp(Box::new(ast), Box::new(rhs), BinaryOps::Lt);
            } else if self.consume("<=") {
                let rhs = self.read_add()?;
                ast = AST::BinaryOp(Box::new(ast), Box::new(rhs), BinaryOps::Le);
            } else if self.consume(">") {
                let lhs = self.read_add()?;
                ast = AST::BinaryOp(Box::new(lhs), Box::new(ast), BinaryOps::Lt);
            } else if self.consume(">=") {
                let lhs = self.read_add()?;
                ast = AST::BinaryOp(Box::new(lhs), Box::new(ast), BinaryOps::Le);
            } else {
                return Ok(ast);
            }
        }
    }

    /// add := mul (("+" | "-") mul)*
    pub fn read_add(&mut self) -> (r: Result<AST, CompileError>)
        requires
            old(self).wf(),
        ensures
            old(self).advanced(final(self)),
            final(self).locals == old(self).locals,
            r matches Ok(a) ==> old(self).read_one(final(self)) && expr_ok(a),
            parsed(r, add_g(old(self).tokens@, old(self).pos as int), final(self).pos as int),
        decreases old(self).tokens@.len() - old(self).pos, 16nat,
    {
        proof {
            lemma_symbols();
            unfold_add_g(self.tokens@, self.pos as int);
        }
        let ghost t = self.tokens@;
        let ghost p0 = self.pos as int;
        let mut ast = self.read_mul()?;
        loop
            invariant
                old(self).read_one(self),
                expr_ok(ast),
                t == self.tokens@,
                p0 == old(self).pos,
                add_g(t, p0) == add_rest(t, self.pos as int, ast@),
            decreases self.tokens@.len() - self.pos,
        {
            proof {
                lemma_symbols();
                unfold_add_rest(t, self.pos as int, ast@);
            }
            if self.consume("+") {
                let rhs = self.read_mul()?;
                ast = AST::BinaryOp(Box::new(ast), Box::new(rhs), BinaryOps::Add);
            } else if self.consume("-") {
                let rhs = self.read_mul()?;
                ast = AST::BinaryOp(Box::new(ast), Box::new(rhs), BinaryOps::Sub);
            } else {
                return Ok(ast);
            }
        }
    }

    /// mul := unary (("*" | "/") unary)*
    pub fn read_mul(&mut self) -> (r: Result<AST, CompileError>)
        requires
            old(self).wf(),
        ensures
            old(self).advanced(final(self)),
            final(self).locals == old(self).locals,
            r matches Ok(a) ==> old(self).read_one(final(self)) && expr_ok(a),
            parsed(r, mul_g(old(self).tokens@, old(self).pos as int), final(self).pos as int),
        decreases old(self).tokens@.len() - old(self).pos, 14nat,
    {
        proof {
            lemma_symbols();
            unfold_mul_g(self.tokens@, self.pos as int);
        }
        let ghost t = self.tokens@;
        let ghost p0 = self.pos as int;
        let mut ast = self.read_unary()?;
        loop
            invariant
                old(self).read_one(self),
                expr_ok(ast),
                t == self.tokens@,
                p0 == old(self).pos,
                mul_g(t, p0) == mul_rest(t, self.pos as int, ast@),
            decreases self.tokens@.len() - self.pos,
        {
            proof {
                lemma_symbols();
                unfold_mul_rest(t, self.pos as int, ast@);
            }
            if self.consume("*") {
                let rhs = self.read_unary()?;
                ast = AST::BinaryOp(Box::new(ast), Box::new(rhs), BinaryOps::Mul);
            } else if self.consume("/") {
                let rhs = self.read_unary()?;
                ast = AST::BinaryOp(Box::new(ast), Box::new(rhs), BinaryOps::Div);
            } else {
                return Ok(ast);
            }
        }
    }

    /// unary := ("+" | "-" | "&" | "*") unary | postfix
    pub fn read_unary(&mut self) -> (r: Result<AST, CompileError>)
        requires
            old(self).wf(),
        ensures
            old(self).advanced(final(self)),
            final(self).locals == old(self).locals,
            r matches Ok(a) ==> old(self).read_one(final(self)) && expr_ok(a),
            parsed(r, unary_g(old(self).tokens@, old(self).pos as int), final(self).pos as int),
        decreases old(self).tokens@.len() - old(self).pos, 12nat,
    {
        proof {
            lemma_symbols();
            unfold_unary_g(self.tokens@, self.pos as int);
        }
        if self.consume("+") {
            Ok(AST::UnaryOp(Box::new(self.read_unary()?), UnaryOps::Plus))
        } else if self.consume("-") {
            Ok(AST::UnaryOp(Box::new(self.read_unary()?), UnaryOps::Minus))
        } else if self.consume("&") {
            Ok(AST::UnaryOp(Box::new(self.read_unary()?), UnaryOps::Addr))
        } else if self.consume("*") {
            Ok(AST::UnaryOp(Box::new(self.read_unary()?), UnaryOps::Deref))
        } else {
            self.read_postfix()
        }
    }

    /// postfix := primary ("[" expr "]")*, where `x[y]` stands for `*(x + y)`.
    pub fn read_postfix(&mut self) -> (r: Result<AST, CompileError>)
        requires
            old(self).wf(),
        ensures
            old(self).advanced(final(self)),
            final(self).locals == old(self).locals,
            r matches Ok(a) ==> old(self).read_one(final(self)) && expr_ok(a),
            parsed(r, postfix_g(old(self).tokens@, old(self).pos as int), final(self).pos as int),
        decreases old(self).tokens@.len() - old(self).pos, 11nat,
    {
        proof {
            lemma_symbols();
            unfold_postfix_g(self.tokens@, self.pos as int);
        }
        let ghost t = self.tokens@;
        let ghost p0 = self.pos as int;
        let mut ret = self.read_primary()?;
        loop
            invariant
                old(self).read_one(self),
                expr_ok(ret),
                t == self.tokens@,
                p0 == old(self).pos,
                postfix_g(t, p0) == postfix_rest(t, self.pos as int, ret@),
            decreases self.tokens@.len() - self.pos,
        {
            proof {
                lemma_symbols();
                unfold_postfix_rest(t, self.pos as int, ret@);
            }
            if !self.consume("[") {
                return Ok(ret);
            }
            let rhs = self.read_expr()?;
            self.consume_expected("]")?;
            let ghost prev = ret@;
            let sum = AST::BinaryOp(Box::new(ret), Box::new(rhs), BinaryOps::Add);
            assert(expr_ok(sum));
            assert(sum@ == AstV::BinaryOp(Box::new(prev), Box::new(rhs@), BinaryOps::Add));
            ret = AST::UnaryOp(Box::new(sum), UnaryOps::Deref);
        }
    }

    /// primary := "(" expr ")" | "sizeof" unary | ident "(" args ")" | ident | number
    pub fn read_primary(&mut self) -> (r: Result<AST, CompileError>)
        requires
            old(self).wf(),
        ensures
            old(self).advanced(final(self)),
            final(self).locals == old(self).locals,
            r matches Ok(a) ==> old(self).read_one(final(self)) && expr_ok(a),
            parsed(r, primary_g(old(self).tokens@, old(self).pos as int), final(self).pos as int),
        decreases old(self).tokens@.len() - old(self).pos, 10nat,
    {
        proof {
            lemma_symbols();
            unfold_primary_g(self.tokens@, self.pos as int);
            if self.pos < self.tokens@.len() && all_digits(self.cur_val()) {
                lemma_digits_value_nonneg(self.cur_val());
            }
        }
        if self.consume("(") {
            let ast = self.read_expr()?;
            self.consume_expected(")")?;
            Ok(ast)
        } else if self.consume("sizeof") {
            let ast = self.read_unary()?;
            Ok(AST::UnaryOp(Box::new(ast), UnaryOps::Sizeof))
        } else if self.cur().is_ident() {
            if self.peek().matches("(") {
                return self.read_func_call();
            }
            let v = AST::Variable(self.read_ident()?);
            assert(v@ == AstV::Variable(v->Variable_0@));
            Ok(AST::Load(Box::new(v)))
        } else {
            self.read_ast_num()
        }
    }

    /// func_call := ident "(" (assign ("," assign)*)? ")"
    pub fn read_func_call(&mut self) -> (r: Result<AST, CompileError>)
        requires
            old(self).wf(),
        ensures
            old(self).advanced(final(self)),
            final(self).locals == old(self).locals,
            r matches Ok(a) ==> old(self).read_one(final(self)) && expr_ok(a) && a is FuncCall,
            parsed(r, call_g(old(self).tokens@, old(self).pos as int), final(self).pos as int),
        decreases old(self).tokens@.len() - old(self).pos, 9nat,
    {
        proof {
            lemma_symbols();
            unfold_call_g(self.tokens@, self.pos as int);
        }
        let ghost t = self.tokens@;
        let ghost p0 = self.pos as int;
        let name = self.read_ident()?;
        let mut args: Vec<AST> = Vec::new();
        assert(exprs_ok(args@));
        self.consume_expected("(")?;
        if !self.consume(")") {
            proof {
                unfold_args_g(t, self.pos as int, Seq::empty());
            }
            let a = self.read_assign()?;
            proof {
                lemma_exprs_push(args@, a);
                lemma_asts_view_push(args@, a);
                assert(asts_view(args@) =~= Seq::<AstV>::empty());
            }
            args.push(a);
            while self.consume(",")
                invariant
                    old(self).read_one(self),
                    exprs_ok(args@),
                    t == self.tokens@,
                    p0 == old(self).pos,
                    args_g(t, p0 + 2, Seq::empty()) == args_cont(t, self.pos as int, asts_view(args@)),
                    0 <= p0 < t.len(),
                    call_g(t, p0) == match args_g(t, p0 + 2, Seq::empty()) {
                        Some((xs, q)) => if at(t, q, seq![')']) {
                            Some((AstV::FuncCall(t[p0].val@, xs), q + 1))
                        } else {
                            None
                        },
                        None => None,
                    },
                    name@ == t[p0].val@,
                decreases self.tokens@.len() - self.pos,
            {
                proof {
                    lemma_symbols();
                    unfold_args_g(t, self.pos as int, asts_view(args@));
                }
                let a = self.read_assign()?;
                proof {
                    lemma_exprs_push(args@, a);
                    lemma_asts_view_push(args@, a);
                }
                args.push(a);
            }
            self.consume_expected(")")?;
        }
        assert(exprs_ok(args@));
        proof {
            if args@.len() == 0 {
                assert(asts_view(args@) =~= Seq::<AstV>::empty());
            }
        }
        Ok(AST::FuncCall(name, args))
    }
}

/// `after` is `before` with one local recorded per declaration of `decls`,
/// in order, each with the declaration's name and type.
pub open spec fn records(before: Seq<(String, Type)>, after: Seq<(String, Type)>, decls: Seq<AST>) -> bool {
    &&& after.len() == before.len() + decls.len()
    &&& after.subrange(0, before.len() as int) == before
    &&& forall|i: int|
        0 <= i < decls.len() ==> ((#[trigger] decls[i]) matches AST::VariableDecl(t, n, _) && after[before.len()
            + i].0 == n && after[before.len() + i].1@ == t@)
}

/// A top-level definition as the parser builds it.
pub open spec fn func_def_ok(a: AST) -> bool {
    a matches AST::FuncDef(_, _, b) && *b is Block && stmt_ok(*b)
}

impl Parser {
    /// A successful read that may have recorded locals.
    pub open spec fn read_some(&self, next: &Parser) -> bool {
        &&& self.advanced(next)
        &&& next.pos > self.pos
    }

    /// Reads a statement; its first token tells which kind.
    #[verifier::rlimit(100)]
    fn read_stmt(&mut self) -> (r: Result<AST, CompileError>)
        requires
            old(self).wf(),
        ensures
            old(self).advanced(final(self)),
            r matches Ok(a) ==> old(self).read_some(final(self)) && stmt_ok(a),
            parsed(r, stmt_g(old(self).tokens@, old(self).pos as int), final(self).pos as int),
            r matches Ok(a) ==> locals_view(final(self).locals@) == locals_view(old(self).locals@) + decl_locals(a@),
        decreases old(self).tokens@.len() - old(self).pos, 20nat,
    {
        proof {
            lemma_symbols();
            unfold_stmt_g(self.tokens@, self.pos as int);
        }
        let ghost t = self.tokens@;
        let ghost p0 = self.pos as int;
        let ghost l0 = locals_view(self.locals@);
        if self.consume("return") {
            if self.consume(";") {
                assert(locals_view(self.locals@) =~= l0 + decl_locals(AST::Return(None)@));
                return Ok(AST::Return(None));
            }
            let expr = self.read_expr()?;
            self.consume_expected(";")?;
            assert(stmt_ok(AST::Return(Some(Box::new(expr)))));
            assert(locals_view(self.locals@) =~= l0 + decl_locals(AST::Return(Some(Box::new(expr)))@));
            Ok(AST::Return(Some(Box::new(expr))))
        } else if self.consume("if") {
            self.consume_expected("(")?;
            let cond = self.read_expr()?;
            self.consume_expected(")")?;
            let then = self.read_stmt()?;
            let ghost l1 = locals_view(self.locals@);
            let els = if self.consume("else") {
                self.read_stmt()?
            } else {
                AST::Nil
            };
            assert(stmt_ok(els));
            assert(stmt_ok(AST::If(Box::new(cond), Box::new(then), Box::new(els))));
            let ghost cv = cond@;
            assert(AST::If(Box::new(cond), Box::new(then), Box::new(els))@ matches AstV::If(c, _, _) && *c == cv);
            assert(els is Nil ==> els@ == AstV::Nil);
            assert(els is Nil ==> locals_view(self.locals@) == l1 + decl_locals(els@)) by {
                if els is Nil {
                    assert(l1 + decl_locals(els@) =~= l1);
                }
            }
            let ghost tv = then@;
            let ghost ev = els@;
            let res = AST::If(Box::new(cond), Box::new(then), Box::new(els));
            assert(decl_locals(res@) == decl_locals(tv) + decl_locals(ev));
            assert(locals_view(self.locals@) =~= l0 + decl_locals(res@));
            assert(stmt_g(t, p0) == Some((res@, self.pos as int)));
            Ok(res)
        } else if self.consume("for") {
            self.consume_expected("(")?;
            let init = self.read_expr_stmt()?;
            let cond = if self.consume(";") {
                AST::Nil
            } else {
                let c = self.read_expr()?;
                self.consume_expected(";")?;
                c
            };
            let step = if self.consume(")") {
                AST::Nil
            } else {
                let s = self.read_expr()?;
                self.consume_expected(")")?;
                s
            };
            let ghost l1 = locals_view(self.locals@);
            let body = self.read_stmt()?;
            assert(stmt_ok(init));
            assert(cond is Nil || expr_ok(cond));
            assert(step is Nil || expr_ok(step));
            assert(cond is Nil ==> cond@ == AstV::Nil);
            assert(step is Nil ==> step@ == AstV::Nil);
            let ghost iv = init@;
            let ghost bv = body@;
            let res = AST::For(Box::new(init), Box::new(cond), Box::new(step), Box::new(body));
            assert(decl_locals(res@) == decl_locals(iv) + decl_locals(bv));
            assert(l1 == l0);
            assert(locals_view(self.locals@) =~= l0 + decl_locals(res@));
            assert(stmt_g(t, p0) == Some((res@, self.pos as int)));
            Ok(res)
        } else if self.consume("while") {
            self.consume_expected("(")?;
            let cond = self.read_expr()?;
            self.consume_expected(")")?;
            let body = self.read_stmt()?;
            assert(stmt_ok(AST::While(Box::new(cond), Box::new(body))));
            assert(locals_view(self.locals@) =~= l0 + decl_locals(AST::While(Box::new(cond), Box::new(body))@));
            let ghost cv = cond@;
            assert(AST::While(Box::new(cond), Box::new(body))@ matches AstV::While(c, _) && *c == cv);
            let res = AST::While(Box::new(cond), Box::new(body));
            assert(stmt_g(t, p0) == Some((res@, self.pos as int)));
            Ok(res)
        } else if self.consume("{") {
            self.read_compound_stmt()
        } else {
            let res = self.read_expr_stmt()?;
            assert(locals_view(self.locals@) =~= l0 + decl_locals(res@));
            Ok(res)
        }
    }

    /// Reads the statements of a block, after its `{`, up to its `}`.
    fn read_compound_stmt(&mut self) -> (r: Result<AST, CompileError>)
        requires
            old(self).wf(),
        ensures
            old(self).advanced(final(self)),
            r matches Ok(a) ==> old(self).read_some(final(self)) && stmt_ok(a) && a is Block,
            parsed(r, compound_g(old(self).tokens@, old(self).pos as int, Seq::empty()), final(self).pos as int),
            r matches Ok(a) ==> locals_view(final(self).locals@) == locals_view(old(self).locals@) + decl_locals(a@),
        decreases old(self).tokens@.len() - old(self).pos, 22nat,
    {
        proof {
            lemma_symbols();
        }
        let ghost t = self.tokens@;
        let ghost p0 = self.pos as int;
        let mut v: Vec<AST> = Vec::new();
        assert(stmts_ok(v@));
        assert(asts_view(v@) =~= Seq::<AstV>::empty());
        assert(locals_view(self.locals@) =~= locals_view(old(self).locals@) + decls_locals(asts_view(v@)));
        while !self.consume("}")
            invariant
                old(self).advanced(self),
                stmts_ok(v@),
                t == self.tokens@,
                p0 == old(self).pos,
                compound_g(t, p0, Seq::empty()) == compound_g(t, self.pos as int, asts_view(v@)),
                locals_view(self.locals@) == locals_view(old(self).locals@) + decls_locals(asts_view(v@)),
            decreases self.tokens@.len() - self.pos,
        {
            proof {
                lemma_symbols();
                unfold_compound_g(t, self.pos as int, asts_view(v@));
            }
            if self.cur().matches("int") {
                let mut decls = self.read_declaration()?;
                proof {
                    lemma_stmts_append(v@, decls@);
                    lemma_asts_view_append(v@, decls@);
                    lemma_decls_locals_append(asts_view(v@), asts_view(decls@));
                    assert(locals_view(self.locals@) =~= locals_view(old(self).locals@) + decls_locals(
                        asts_view(v@) + asts_view(decls@),
                    ));
                }
                v.append(&mut decls);
            } else {
                let s = self.read_stmt()?;
                proof {
                    lemma_stmts_push(v@, s);
                    lemma_asts_view_push(v@, s);
                    assert(asts_view(v@).push(s@).drop_last() =~= asts_view(v@));
                    assert(locals_view(self.locals@) =~= locals_view(old(self).locals@) + decls_locals(
                        asts_view(v@).push(s@),
                    ));
                }
                v.push(s);
            }
        }
        proof {
            lemma_symbols();
            unfold_compound_g(t, self.pos - 1, asts_view(v@));
        }
        Ok(AST::Block(v))
    }

    /// Reads a declaration: a specifier, then declarators with optional
    /// initializers, separated by commas, then `;`. Each name is recorded as a
    /// local before its initializer is read.
    fn read_declaration(&mut self) -> (r: Result<Vec<AST>, CompileError>)
        requires
            old(self).wf(),
        ensures
            old(self).advanced(final(self)),
            r matches Ok(v) ==> old(self).read_some(final(self)) && v@.len() > 0 && forall|i: int|
                0 <= i < v@.len() ==> stmt_ok(#[trigger] v@[i]) && v@[i] is VariableDecl,
            r matches Ok(v) ==> records(old(self).locals@, final(self).locals@, v@),
            r matches Ok(v) ==> locals_view(final(self).locals@) == locals_view(old(self).locals@)
                + decls_locals(asts_view(v@)),
            r is Ok <==> decl_g(old(self).tokens@, old(self).pos as int) is Some,
            r matches Ok(v) ==> decl_g(old(self).tokens@, old(self).pos as int) == Some(
                (asts_view(v@), final(self).pos as int),
            ),
            r is Ok ==> old(self).cur_val() == seq!['i', 'n', 't'],
        decreases old(self).tokens@.len() - old(self).pos, 21nat,
    {
        proof {
            lemma_symbols();
        }
        let ghost t = self.tokens@;
        let ghost p0 = self.pos as int;
        let declspec = self.read_declspec()?;
        let mut decls: Vec<AST> = Vec::new();
        assert(asts_view(decls@) =~= Seq::<AstV>::empty());
        assert(locals_view(self.locals@) =~= locals_view(old(self).locals@) + decls_locals(asts_view(decls@)));
        proof {
            assert(self.locals@.subrange(0, old(self).locals@.len() as int) =~= old(self).locals@);
        }
        loop
            invariant
                old(self).read_some(self),
                old(self).pos < old(self).tokens@.len() && old(self).cur_val() == seq!['i', 'n', 't'],
                records(old(self).locals@, self.locals@, decls@),
                declspec == Type::Int,
                t == self.tokens@,
                p0 == old(self).pos,
                decl_g(t, p0) == decl_rest(t, self.pos as int, asts_view(decls@)),
                locals_view(self.locals@) == locals_view(old(self).locals@) + decls_locals(asts_view(decls@)),
                forall|i: int| 0 <= i < decls@.len() ==> stmt_ok(#[trigger] decls@[i]) && decls@[i] is VariableDecl,
            decreases self.tokens@.len() - self.pos,
        {
            proof {
                lemma_symbols();
                unfold_decl_rest(t, self.pos as int, asts_view(decls@));
            }
            let (ty, name) = self.read_declarator(declspec.duplicate())?;
            let ghost lb = self.locals@;
            self.new_lvar(name.clone(), ty.duplicate());
            proof {
                lemma_locals_view_push(lb, self.locals@.last());
                assert(locals_view(self.locals@) == locals_view(lb).push((name@, ty@)));
            }
            let init = if self.consume("=") {
                Some(Box::new(self.read_expr()?))
            } else {
                None
            };
            let ghost before = decls@;
            let ghost lv = locals_view(self.locals@);
            let d = AST::VariableDecl(ty, name, init);
            proof {
                lemma_asts_view_push(decls@, d);
                let dv = asts_view(decls@).push(d@);
                assert(dv.drop_last() =~= asts_view(decls@));
                assert(decl_locals(d@) == seq![(name@, ty@)]);
                assert(decls_locals(dv) == decls_locals(asts_view(decls@)) + seq![(name@, ty@)]);
                assert(lv == (locals_view(old(self).locals@) + decls_locals(asts_view(decls@))).push((name@, ty@)));
                assert(locals_view(self.locals@) =~= locals_view(old(self).locals@) + decls_locals(dv));
            }
            decls.push(d);
            proof {
                let n0 = old(self).locals@.len() as int;
                assert(self.locals@.subrange(0, n0) =~= old(self).locals@) by {
                    assert forall|k: int| 0 <= k < n0 implies self.locals@[k] == old(self).locals@[k] by {
                        assert(self.locals@[k] == self.locals@.drop_last()[k]);
                    }
                }
                assert forall|i: int| 0 <= i < decls@.len() implies ((#[trigger] decls@[i]) matches AST::VariableDecl(
                    t,
                    n,
                    _,
                ) && self.locals@[n0 + i].0 == n && self.locals@[n0 + i].1@ == t@) by {
                    if i < before.len() {
                        assert(decls@[i] == before[i]);
                    }
                }
            }
            if !self.consume(",") {
                self.consume_expected(";")?;
                return Ok(decls);
            }
        }
    }

    /// Reads a declarator: pointer stars, a name, then suffixes.
    fn read_declarator(&mut self, ty: Type) -> (r: Result<(Type, String), CompileError>)
        requires
            old(self).wf(),
            !(ty@ is Func),
        ensures
            old(self).advanced(final(self)),
            final(self).locals == old(self).locals,
            r matches Ok((t, _)) ==> final(self).pos > old(self).pos && params_named(t@),
            dparsed(r, declarator_g(old(self).tokens@, old(self).pos as int, ty@), final(self).pos as int),
        decreases old(self).tokens@.len() - old(self).pos, 2nat,
    {
        proof {
            lemma_symbols();
        }
        let ghost t = self.tokens@;
        let ghost p0 = self.pos as int;
        let ghost base = ty@;
        let mut ty = ty;
        while self.consume("*")
            invariant
                old(self).advanced(self),
                self.locals == old(self).locals,
                !(ty@ is Func),
                t == self.tokens@,
                p0 == old(self).pos,
                declarator_g(t, p0, base) == declarator_g(t, self.pos as int, ty@),
            decreases self.tokens@.len() - self.pos,
        {
            proof {
                lemma_symbols();
                unfold_declarator_g(t, self.pos - 1, ty@);
            }
            ty = Type::Ptr(Box::new(ty));
        }
        proof {
            unfold_declarator_g(t, self.pos as int, ty@);
        }
        let name = self.read_ident()?;
        let ty = self.read_type_suffix(ty)?;
        Ok((ty, name))
    }

    /// Reads array and parameter-list suffixes of a declarator. For `[a][b]`
    /// the inner suffix is read first, so `a` counts the outer dimension.
    fn read_type_suffix(&mut self, ty: Type) -> (r: Result<Type, CompileError>)
        requires
            old(self).wf(),
            params_named(ty@),
        ensures
            old(self).advanced(final(self)),
            final(self).locals == old(self).locals,
            r matches Ok(t) ==> params_named(t@),
            r is Ok <==> suffix_g(old(self).tokens@, old(self).pos as int, ty@) is Some,
            r matches Ok(t) ==> suffix_g(old(self).tokens@, old(self).pos as int, ty@) == Some(
                (t@, final(self).pos as int),
            ),
        decreases old(self).tokens@.len() - old(self).pos, 1nat,
    {
        proof {
            lemma_symbols();
            unfold_suffix_g(self.tokens@, self.pos as int, ty@);
            if self.pos + 1 < self.tokens@.len() && all_digits(self.tokens@[self.pos + 1].val@) {
                lemma_digits_value_nonneg(self.tokens@[self.pos + 1].val@);
            }
        }
        if self.consume("[") {
            let arr_sz = self.read_num()?;
            self.consume_expected("]")?;
            let ty = self.read_type_suffix(ty)?;
            Ok(Type::Array(Box::new(ty), arr_sz))
        } else if self.consume("(") {
            let (types, names) = self.read_func_params()?;
            proof {
                lemma_models_of(types@);
            }
            Ok(Type::Func(Box::new(ty), types, names))
        } else {
            Ok(ty)
        }
    }

    /// Reads a parameter list after its `(`, up to its `)`.
    fn read_func_params(&mut self) -> (r: Result<(Vec<Type>, Vec<String>), CompileError>)
        requires
            old(self).wf(),
        ensures
            old(self).advanced(final(self)),
            final(self).locals == old(self).locals,
            r matches Ok((ts, ns)) ==> ts@.len() == ns@.len(),
            r is Ok <==> params_g(old(self).tokens@, old(self).pos as int) is Some,
            r matches Ok((ts, ns)) ==> params_g(old(self).tokens@, old(self).pos as int) == Some(
                (models_of(ts@), ns@.map_values(|s: String| s@), final(self).pos as int),
            ),
        decreases old(self).tokens@.len() - old(self).pos, 4nat,
    {
        proof {
            lemma_symbols();
            unfold_params_g(self.tokens@, self.pos as int);
        }
        let ghost t = self.tokens@;
        let ghost p0 = self.pos as int;
        let mut types: Vec<Type> = Vec::new();
        let mut names: Vec<String> = Vec::new();
        proof {
            assert(models_of(types@) =~= Seq::<TypeModel>::empty());
            assert(names@.map_values(|s: String| s@) =~= Seq::<Seq<char>>::empty());
        }
        if !self.consume(")") {
            proof {
                unfold_params_rest(t, self.pos as int, Seq::empty(), Seq::empty());
            }
            let (ty, name) = self.read_param()?;
            proof {
                lemma_models_of_push(types@, ty);
                lemma_names_push(names@, name);
            }
            types.push(ty);
            names.push(name);
            while self.consume(",")
                invariant
                    old(self).advanced(self),
                    self.pos > old(self).pos,
                    self.locals == old(self).locals,
                    types@.len() == names@.len(),
                    t == self.tokens@,
                    p0 == old(self).pos,
                    params_g(t, p0) == params_cont(t, self.pos as int, models_of(types@), names@.map_values(|s: String| s@)),
                decreases self.tokens@.len() - self.pos,
            {
                proof {
                    lemma_symbols();
                    unfold_params_rest(t, self.pos as int, models_of(types@), names@.map_values(|s: String| s@));
                }
                let (ty, name) = self.read_param()?;
                proof {
                    lemma_models_of_push(types@, ty);
                    lemma_names_push(names@, name);
                }
                types.push(ty);
                names.push(name);
            }
            self.consume_expected(")")?;
        }
        Ok((types, names))
    }

    /// Reads one parameter: a specifier and a declarator.
    fn read_param(&mut self) -> (r: Result<(Type, String), CompileError>)
        requires
            old(self).wf(),
        ensures
            old(self).advanced(final(self)),
            final(self).locals == old(self).locals,
            r is Ok ==> final(self).pos > old(self).pos,
            dparsed(r, param_g(old(self).tokens@, old(self).pos as int), final(self).pos as int),
        decreases old(self).tokens@.len() - old(self).pos, 3nat,
    {
        proof {
            lemma_symbols();
        }
        let ty = self.read_declspec()?;
        self.read_declarator(ty)
    }

    /// expr_stmt := ";" | expr ";"
    fn read_expr_stmt(&mut self) -> (r: Result<AST, CompileError>)
        requires
            old(self).wf(),
        ensures
            old(self).advanced(final(self)),
            r matches Ok(a) ==> old(self).read_some(final(self)) && stmt_ok(a) && (a is Nil
                || a is ExprStmt),
            final(self).locals == old(self).locals,
            parsed(r, expr_stmt_g(old(self).tokens@, old(self).pos as int), final(self).pos as int),
            r matches Ok(a) ==> decl_locals(a@) == Seq::<(Seq<char>, TypeModel)>::empty(),
        decreases old(self).tokens@.len() - old(self).pos, 13nat,
    {
        proof {
            lemma_symbols();
        }
        if self.consume(";") {
            Ok(AST::Nil)
        } else {
            let expr = self.read_expr()?;
            self.consume_expected(";")?;
            Ok(AST::ExprStmt(Box::new(expr)))
        }
    }

    /// Reads a function definition; the table of locals starts empty.
    fn read_func_def(&mut self) -> (r: Result<AST, CompileError>)
        requires
            old(self).wf(),
        ensures
            old(self).advanced(final(self)),
            r matches Ok(a) ==> old(self).read_some(final(self)) && func_def_ok(a),
            parsed(r, funcdef_g(old(self).tokens@, old(self).pos as int), final(self).pos as int),
            r matches Ok(a) ==> (a@ matches AstV::FuncDef(_, _, b) && locals_view(final(self).locals@)
                == decl_locals(*b)),
        decreases old(self).tokens@.len() - old(self).pos, 5nat,
    {
        proof {
            lemma_symbols();
        }
        self.locals = Vec::new();
        let func_ty = self.read_declspec()?;
        let (func_ty, func_name) = self.read_declarator(func_ty)?;
        self.consume_expected("{")?;
        let body = self.read_compound_stmt()?;
        Ok(AST::FuncDef(func_ty, func_name, Box::new(body)))
    }

    fn read_top_level(&mut self) -> (r: Result<AST, CompileError>)
        requires
            old(self).wf(),
        ensures
            old(self).advanced(final(self)),
            r matches Ok(a) ==> old(self).read_some(final(self)) && func_def_ok(a),
            parsed(r, funcdef_g(old(self).tokens@, old(self).pos as int), final(self).pos as int),
        decreases old(self).tokens@.len() - old(self).pos, 6nat,
    {
        self.read_func_def()
    }

    /// Reads function definitions up to the end-of-input token.
    pub fn read_program(&mut self) -> (r: Result<Vec<AST>, CompileError>)
        requires
            old(self).wf(),
        ensures
            old(self).advanced(final(self)),
            r matches Ok(v) ==> (forall|i: int| 0 <= i < v@.len() ==> func_def_ok(#[trigger] v@[i]))
                && (final(self).pos == final(self).tokens@.len() || final(self).tokens@[final(self).pos as int].kind
                == TokenKind::Eof),
            r is Ok <==> program_g(old(self).tokens@, old(self).pos as int, Seq::empty()) is Some,
            r matches Ok(v) ==> program_g(old(self).tokens@, old(self).pos as int, Seq::empty()) == Some(
                asts_view(v@),
            ),
    {
        let ghost t = self.tokens@;
        let ghost p0 = self.pos as int;
        let mut ret: Vec<AST> = Vec::new();
        assert(asts_view(ret@) =~= Seq::<AstV>::empty());
        while !self.cur().is_eof()
            invariant
                old(self).advanced(self),
                t == self.tokens@,
                p0 == old(self).pos,
                program_g(t, p0, Seq::empty()) == program_g(t, self.pos as int, asts_view(ret@)),
                forall|i: int| 0 <= i < ret@.len() ==> func_def_ok(#[trigger] ret@[i]),
            decreases self.tokens@.len() - self.pos,
        {
            let f = self.read_top_level()?;
            proof {
                lemma_asts_view_push(ret@, f);
            }
            ret.push(f);
        }
        Ok(ret)
    }
}

/// Whether a function type has as many parameter names as types.
pub open spec fn params_named(t: TypeModel) -> bool {
    t matches TypeModel::Func(_, ps, ns) ==> ps.len() == ns.len()
}

/// Parses a token sequence into function definitions.
pub fn parse(filepath: String, tokens: Vec<Token>) -> (r: Result<Vec<AST>, CompileError>)
    ensures
        r is Ok <==> program_g(tokens@, 0, Seq::empty()) is Some,
        r matches Ok(v) ==> program_g(tokens@, 0, Seq::empty()) == Some(asts_view(v@)),
        r matches Ok(v) ==> forall|i: int| 0 <= i < v@.len() ==> func_def_ok(#[trigger] v@[i]),
{
    let mut parser = Parser::new(filepath, tokens);
    parser.read_program()
}

/// Whether token `p` exists and reads `s`.
pub open spec fn at(t: Seq<Token>, p: int, s: Seq<char>) -> bool {
    0 <= p < t.len() && t[p].val@ == s
}

/// An integer or floating-point literal at token `p`.
pub open spec fn num_g(t: Seq<Token>, p: int) -> Option<(AstV, int)> {
    if 0 <= p < t.len() {
        let v = t[p].val@;
        match t[p].kind {
            TokenKind::IntNum => if v.len() > 0 && all_digits(v) && digits_value(v) <= i32::MAX {
                Some((AstV::Int(digits_value(v) as i32), p + 1))
            } else {
                None
            },
            TokenKind::FloatNum => if dot_count(v) == 1 {
                Some((AstV::Float(v), p + 1))
            } else {
                None
            },
            _ => None,
        }
    } else {
        None
    }
}

/// The expression grammar, one function per level, each giving the tree read
/// from token `p` and the position after it. `expr := assign`.
#[verifier::opaque]
pub open spec fn expr_g(t: Seq<Token>, p: int) -> Option<(AstV, int)>
    decreases t.len() - p, 20nat,
{
    assign_g(t, p)
}

/// The target of an assignment: a variable loses its `Load`.
pub open spec fn strip_load(a: AstV) -> AstV {
    match a {
        AstV::Load(x) => *x,
        _ => a,
    }
}

/// `assign := equality ("=" assign)?`, right-associative.
#[verifier::opaque]
pub open spec fn assign_g(t: Seq<Token>, p: int) -> Option<(AstV, int)>
    decreases t.len() - p, 19nat,
{
    match equality_g(t, p) {
        Some((l, q)) => if p < q && at(t, q, seq!['=']) {
            match assign_g(t, q + 1) {
                Some((r, q2)) => Some((AstV::BinaryOp(Box::new(strip_load(l)), Box::new(r), BinaryOps::Assign), q2)),
                None => None,
            }
        } else if p < q {
            Some((l, q))
        } else {
            None
        },
        None => None,
    }
}

/// `equality := relational (("==" | "!=") relational)*`, left-associative.
#[verifier::opaque]
pub open spec fn equality_g(t: Seq<Token>, p: int) -> Option<(AstV, int)>
    decreases t.len() - p, 18nat,
{
    match relational_g(t, p) {
        Some((a, q)) => if p < q <= t.len() {
            equality_rest(t, q, a)
        } else {
            None
        },
        None => None,
    }
}

#[verifier::opaque]
pub open spec fn equality_rest(t: Seq<Token>, q: int, acc: AstV) -> Option<(AstV, int)>
    decreases t.len() - q, 0nat,
{
    let op = if at(t, q, seq!['=', '=']) {
        Some(BinaryOps::Eq)
    } else if at(t, q, seq!['!', '=']) {
        Some(BinaryOps::Ne)
    } else {
        None
    };
    match op {
        Some(o) => match relational_g(t, q + 1) {
            Some((r, q2)) => if q < q2 <= t.len() {
                equality_rest(t, q2, AstV::BinaryOp(Box::new(acc), Box::new(r), o))
            } else {
                None
            },
            None => None,
        },
        None => Some((acc, q)),
    }
}

/// `relational := add (("<" | "<=" | ">" | ">=") add)*`, left-associative;
/// `a > b` is `b < a` and `a >= b` is `b <= a`.
#[verifier::opaque]
pub open spec fn relational_g(t: Seq<Token>, p: int) -> Option<(AstV, int)>
    decreases t.len() - p, 16nat,
{
    match add_g(t, p) {
        Some((a, q)) => if p < q <= t.len() {
            relational_rest(t, q, a)
        } else {
            None
        },
        None => None,
    }
}

#[verifier::opaque]
pub open spec fn relational_rest(t: Seq<Token>, q: int, acc: AstV) -> Option<(AstV, int)>
    decreases t.len() - q, 0nat,
{
    let op = if at(t, q, seq!['<']) {
        Some((BinaryOps::Lt, false))
    } else if at(t, q, seq!['<', '=']) {
        Some((BinaryOps::Le, false))
    } else if at(t, q, seq!['>']) {
        Some((BinaryOps::Lt, true))
    } else if at(t, q, seq!['>', '=']) {
        Some((BinaryOps::Le, true))
    } else {
        None
    };
    match op {
        Some((o, swap)) => match add_g(t, q + 1) {
            Some((r, q2)) => if q < q2 <= t.len() {
                relational_rest(
                    t,
                    q2,
                    if swap {
                        AstV::BinaryOp(Box::new(r), Box::new(acc), o)
                    } else {
                        AstV::BinaryOp(Box::new(acc), Box::new(r), o)
                    },
                )
            } else {
                None
            },
            None => None,
        },
        None => Some((acc, q)),
    }
}

/// `add := mul (("+" | "-") mul)*`, left-associative.
#[verifier::opaque]
pub open spec fn add_g(t: Seq<Token>, p: int) -> Option<(AstV, int)>
    decreases t.len() - p, 14nat,
{
    match mul_g(t, p) {
        Some((a, q)) => if p < q <= t.len() {
            add_rest(t, q, a)
        } else {
            None
        },
        None => None,
    }
}

#[verifier::opaque]
pub open spec fn add_rest(t: Seq<Token>, q: int, acc: AstV) -> Option<(AstV, int)>
    decreases t.len() - q, 0nat,
{
    let op = if at(t, q, seq!['+']) {
        Some(BinaryOps::Add)
    } else if at(t, q, seq!['-']) {
        Some(BinaryOps::Sub)
    } else {
        None
    };
    match op {
        Some(o) => match mul_g(t, q + 1) {
            Some((r, q2)) => if q < q2 <= t.len() {
                add_rest(t, q2, AstV::BinaryOp(Box::new(acc), Box::new(r), o))
            } else {
                None
            },
            None => None,
        },
        None => Some((acc, q)),
    }
}

/// `mul := unary (("*" | "/") unary)*`, left-associative.
#[verifier::opaque]
pub open spec fn mul_g(t: Seq<Token>, p: int) -> Option<(AstV, int)>
    decreases t.len() - p, 12nat,
{
    match unary_g(t, p) {
        Some((a, q)) => if p < q <= t.len() {
            mul_rest(t, q, a)
        } else {
            None
        },
        None => None,
    }
}

#[verifier::opaque]
pub open spec fn mul_rest(t: Seq<Token>, q: int, acc: AstV) -> Option<(AstV, int)>
    decreases t.len() - q, 0nat,
{
    let op = if at(t, q, seq!['*']) {
        Some(BinaryOps::Mul)
    } else if at(t, q, seq!['/']) {
        Some(BinaryOps::Div)
    } else {
        None
    };
    match op {
        Some(o) => match unary_g(t, q + 1) {
            Some((r, q2)) => if q < q2 <= t.len() {
                mul_rest(t, q2, AstV::BinaryOp(Box::new(acc), Box::new(r), o))
            } else {
                None
            },
            None => None,
        },
        None => Some((acc, q)),
    }
}

/// `unary := ("+" | "-" | "&" | "*") unary | postfix`
#[verifier::opaque]
pub open spec fn unary_g(t: Seq<Token>, p: int) -> Option<(AstV, int)>
    decreases t.len() - p, 10nat,
{
    let op = if at(t, p, seq!['+']) {
        Some(UnaryOps::Plus)
    } else if at(t, p, seq!['-']) {
        Some(UnaryOps::Minus)
    } else if at(t, p, seq!['&']) {
        Some(UnaryOps::Addr)
    } else if at(t, p, seq!['*']) {
        Some(UnaryOps::Deref)
    } else {
        None
    };
    match op {
        Some(o) => match unary_g(t, p + 1) {
            Some((e, q)) => Some((AstV::UnaryOp(Box::new(e), o), q)),
            None => None,
        },
        None => postfix_g(t, p),
    }
}

/// `postfix := primary ("[" expr "]")*`, where `x[y]` is `*(x + y)`.
#[verifier::opaque]
pub open spec fn postfix_g(t: Seq<Token>, p: int) -> Option<(AstV, int)>
    decreases t.len() - p, 9nat,
{
    match primary_g(t, p) {
        Some((a, q)) => if p < q <= t.len() {
            postfix_rest(t, q, a)
        } else {
            None
        },
        None => None,
    }
}

#[verifier::opaque]
pub open spec fn postfix_rest(t: Seq<Token>, q: int, acc: AstV) -> Option<(AstV, int)>
    decreases t.len() - q, 0nat,
{
    if at(t, q, seq!['[']) {
        match expr_g(t, q + 1) {
            Some((i, q2)) => if q < q2 && at(t, q2, seq![']']) {
                postfix_rest(
                    t,
                    q2 + 1,
                    AstV::UnaryOp(
                        Box::new(AstV::BinaryOp(Box::new(acc), Box::new(i), BinaryOps::Add)),
                        UnaryOps::Deref,
                    ),
                )
            } else {
                None
            },
            None => None,
        }
    } else {
        Some((acc, q))
    }
}

/// `primary := "(" expr ")" | "sizeof" unary | call | ident | number`; a
/// variable is read through `Load`.
#[verifier::opaque]
pub open spec fn primary_g(t: Seq<Token>, p: int) -> Option<(AstV, int)>
    decreases t.len() - p, 8nat,
{
    if at(t, p, seq!['(']) {
        match expr_g(t, p + 1) {
            Some((e, q)) => if at(t, q, seq![')']) {
                Some((e, q + 1))
            } else {
                None
            },
            None => None,
        }
    } else if at(t, p, seq!['s', 'i', 'z', 'e', 'o', 'f']) {
        match unary_g(t, p + 1) {
            Some((e, q)) => Some((AstV::UnaryOp(Box::new(e), UnaryOps::Sizeof), q)),
            None => None,
        }
    } else if 0 <= p < t.len() && t[p].kind == TokenKind::Ident {
        if at(t, p + 1, seq!['(']) {
            call_g(t, p)
        } else {
            Some((AstV::Load(Box::new(AstV::Variable(t[p].val@))), p + 1))
        }
    } else {
        num_g(t, p)
    }
}

/// `call := ident "(" (assign ("," assign)*)? ")"`
#[verifier::opaque]
pub open spec fn call_g(t: Seq<Token>, p: int) -> Option<(AstV, int)>
    decreases t.len() - p, 7nat,
{
    if 0 <= p < t.len() && t[p].kind == TokenKind::Ident && at(t, p + 1, seq!['(']) {
        if at(t, p + 2, seq![')']) {
            Some((AstV::FuncCall(t[p].val@, Seq::empty()), p + 3))
        } else {
            match args_g(t, p + 2, Seq::empty()) {
                Some((args, q)) => if at(t, q, seq![')']) {
                    Some((AstV::FuncCall(t[p].val@, args), q + 1))
                } else {
                    None
                },
                None => None,
            }
        }
    } else {
        None
    }
}

/// Comma-separated arguments from token `q`, after those in `acc`.
#[verifier::opaque]
pub open spec fn args_g(t: Seq<Token>, q: int, acc: Seq<AstV>) -> Option<(Seq<AstV>, int)>
    decreases t.len() - q, 21nat,
{
    match assign_g(t, q) {
        Some((a, q2)) => if q < q2 <= t.len() {
            if at(t, q2, seq![',']) {
                args_g(t, q2 + 1, acc.push(a))
            } else {
                Some((acc.push(a), q2))
            }
        } else {
            None
        },
        None => None,
    }
}

/// What `args_g` gives once the arguments in `acc` are read and the next
/// token is at `q`.
pub open spec fn args_cont(t: Seq<Token>, q: int, acc: Seq<AstV>) -> Option<(Seq<AstV>, int)> {
    if at(t, q, seq![',']) {
        args_g(t, q + 1, acc)
    } else {
        Some((acc, q))
    }
}

/// One step of `expr_g`.
pub proof fn unfold_expr_g(t: Seq<Token>, p: int)
    ensures
        expr_g(t, p) == ({
        assign_g(t, p)
        }),
{
    reveal(expr_g);
    reveal(assign_g);
}

/// One step of `assign_g`.
pub proof fn unfold_assign_g(t: Seq<Token>, p: int)
    ensures
        assign_g(t, p) == ({
        match equality_g(t, p) {
            Some((l, q)) => if p < q && at(t, q, seq!['=']) {
                match assign_g(t, q + 1) {
                    Some((r, q2)) => Some((AstV::BinaryOp(Box::new(strip_load(l)), Box::new(r), BinaryOps::Assign), q2)),
                    None => None,
                }
            } else if p < q {
                Some((l, q))
            } else {
                None
            },
            None => None,
        }
        }),
{
    reveal(assign_g);
    reveal(equality_g);
}

/// One step of `equality_g`.
pub proof fn unfold_equality_g(t: Seq<Token>, p: int)
    ensures
        equality_g(t, p) == ({
        match relational_g(t, p) {
            Some((a, q)) => if p < q <= t.len() {
                equality_rest(t, q, a)
            } else {
                None
            },
            None => None,
        }
        }),
{
    reveal(equality_g);
    reveal(equality_rest);
    reveal(relational_g);
}

/// One step of `equality_rest`.
pub proof fn unfold_equality_rest(t: Seq<Token>, q: int, acc: AstV)
    ensures
        equality_rest(t, q, acc) == ({
        let op = if at(t, q, seq!['=', '=']) {
            Some(BinaryOps::Eq)
        } else if at(t, q, seq!['!', '=']) {
            Some(BinaryOps::Ne)
        } else {
            None
        };
        match op {
            Some(o) => match relational_g(t, q + 1) {
                Some((r, q2)) => if q < q2 <= t.len() {
                    equality_rest(t, q2, AstV::BinaryOp(Box::new(acc), Box::new(r), o))
                } else {
                    None
                },
                None => None,
            },
            None => Some((acc, q)),
        }
        }),
{
    reveal(equality_rest);
    reveal(relational_g);
}

/// One step of `relational_g`.
pub proof fn unfold_relational_g(t: Seq<Token>, p: int)
    ensures
        relational_g(t, p) == ({
        match add_g(t, p) {
            Some((a, q)) => if p < q <= t.len() {
                relational_rest(t, q, a)
            } else {
                None
            },
            None => None,
        }
        }),
{
    reveal(relational_g);
    reveal(relational_rest);
    reveal(add_g);
}

/// One step of `relational_rest`.
pub proof fn unfold_relational_rest(t: Seq<Token>, q: int, acc: AstV)
    ensures
        relational_rest(t, q, acc) == ({
        let op = if at(t, q, seq!['<']) {
            Some((BinaryOps::Lt, false))
        } else if at(t, q, seq!['<', '=']) {
            Some((BinaryOps::Le, false))
        } else if at(t, q, seq!['>']) {
            Some((BinaryOps::Lt, true))
        } else if at(t, q, seq!['>', '=']) {
            Some((BinaryOps::Le, true))
        } else {
            None
        };
        match op {
            Some((o, swap)) => match add_g(t, q + 1) {
                Some((r, q2)) => if q < q2 <= t.len() {
                    relational_rest(
                        t,
                        q2,
                        if swap {
                            AstV::BinaryOp(Box::new(r), Box::new(acc), o)
                        } else {
                            AstV::BinaryOp(Box::new(acc), Box::new(r), o)
                        },
                    )
                } else {
                    None
                },
                None => None,
            },
            None => Some((acc, q)),
        }
        }),
{
    reveal(relational_rest);
    reveal(add_g);
}

/// One step of `add_g`.
pub proof fn unfold_add_g(t: Seq<Token>, p: int)
    ensures
        add_g(t, p) == ({
        match mul_g(t, p) {
            Some((a, q)) => if p < q <= t.len() {
                add_rest(t, q, a)
            } else {
                None
            },
            None => None,
        }
        }),
{
    reveal(add_g);
    reveal(add_rest);
    reveal(mul_g);
}

/// One step of `add_rest`.
pub proof fn unfold_add_rest(t: Seq<Token>, q: int, acc: AstV)
    ensures
        add_rest(t, q, acc) == ({
        let op = if at(t, q, seq!['+']) {
            Some(BinaryOps::Add)
        } else if at(t, q, seq!['-']) {
            Some(BinaryOps::Sub)
        } else {
            None
        };
        match op {
            Some(o) => match mul_g(t, q + 1) {
                Some((r, q2)) => if q < q2 <= t.len() {
                    add_rest(t, q2, AstV::BinaryOp(Box::new(acc), Box::new(r), o))
                } else {
                    None
                },
                None => None,
            },
            None => Some((acc, q)),
        }
        }),
{
    reveal(add_rest);
    reveal(mul_g);
}

/// One step of `mul_g`.
pub proof fn unfold_mul_g(t: Seq<Token>, p: int)
    ensures
        mul_g(t, p) == ({
        match unary_g(t, p) {
            Some((a, q)) => if p < q <= t.len() {
                mul_rest(t, q, a)
            } else {
                None
            },
            None => None,
        }
        }),
{
    reveal(mul_g);
    reveal(mul_rest);
    reveal(unary_g);
}

/// One step of `mul_rest`.
pub proof fn unfold_mul_rest(t: Seq<Token>, q: int, acc: AstV)
    ensures
        mul_rest(t, q, acc) == ({
        let op = if at(t, q, seq!['*']) {
            Some(BinaryOps::Mul)
        } else if at(t, q, seq!['/']) {
            Some(BinaryOps::Div)
        } else {
            None
        };
        match op {
            Some(o) => match unary_g(t, q + 1) {
                Some((r, q2)) => if q < q2 <= t.len() {
                    mul_rest(t, q2, AstV::BinaryOp(Box::new(acc), Box::new(r), o))
                } else {
                    None
                },
                None => None,
            },
            None => Some((acc, q)),
        }
        }),
{
    reveal(mul_rest);
    reveal(unary_g);
}

/// One step of `unary_g`.
pub proof fn unfold_unary_g(t: Seq<Token>, p: int)
    ensures
        unary_g(t, p) == ({
        let op = if at(t, p, seq!['+']) {
            Some(UnaryOps::Plus)
        } else if at(t, p, seq!['-']) {
            Some(UnaryOps::Minus)
        } else if at(t, p, seq!['&']) {
            Some(UnaryOps::Addr)
        } else if at(t, p, seq!['*']) {
            Some(UnaryOps::Deref)
        } else {
            None
        };
        match op {
            Some(o) => match unary_g(t, p + 1) {
                Some((e, q)) => Some((AstV::UnaryOp(Box::new(e), o), q)),
                None => None,
            },
            None => postfix_g(t, p),
        }
        }),
{
    reveal(unary_g);
    reveal(postfix_g);
}

/// One step of `postfix_g`.
pub proof fn unfold_postfix_g(t: Seq<Token>, p: int)
    ensures
        postfix_g(t, p) == ({
        match primary_g(t, p) {
            Some((a, q)) => if p < q <= t.len() {
                postfix_rest(t, q, a)
            } else {
                None
            },
            None => None,
        }
        }),
{
    reveal(postfix_g);
    reveal(postfix_rest);
    reveal(primary_g);
}

/// One step of `postfix_rest`.
pub proof fn unfold_postfix_rest(t: Seq<Token>, q: int, acc: AstV)
    ensures
        postfix_rest(t, q, acc) == ({
        if at(t, q, seq!['[']) {
            match expr_g(t, q + 1) {
                Some((i, q2)) => if q < q2 && at(t, q2, seq![']']) {
                    postfix_rest(
                        t,
                        q2 + 1,
                        AstV::UnaryOp(
                            Box::new(AstV::BinaryOp(Box::new(acc), Box::new(i), BinaryOps::Add)),
                            UnaryOps::Deref,
                        ),
                    )
                } else {
                    None
                },
                None => None,
            }
        } else {
            Some((acc, q))
        }
        }),
{
    reveal(postfix_rest);
    reveal(expr_g);
}

/// One step of `primary_g`.
pub proof fn unfold_primary_g(t: Seq<Token>, p: int)
    ensures
        primary_g(t, p) == ({
        if at(t, p, seq!['(']) {
            match expr_g(t, p + 1) {
                Some((e, q)) => if at(t, q, seq![')']) {
                    Some((e, q + 1))
                } else {
                    None
                },
                None => None,
            }
        } else if at(t, p, seq!['s', 'i', 'z', 'e', 'o', 'f']) {
            match unary_g(t, p + 1) {
                Some((e, q)) => Some((AstV::UnaryOp(Box::new(e), UnaryOps::Sizeof), q)),
                None => None,
            }
        } else if 0 <= p < t.len() && t[p].kind == TokenKind::Ident {
            if at(t, p + 1, seq!['(']) {
                call_g(t, p)
            } else {
                Some((AstV::Load(Box::new(AstV::Variable(t[p].val@))), p + 1))
            }
        } else {
            num_g(t, p)
        }
        }),
{
    reveal(primary_g);
    reveal(expr_g);
    reveal(unary_g);
    reveal(call_g);
}

/// One step of `call_g`.
pub proof fn unfold_call_g(t: Seq<Token>, p: int)
    ensures
        call_g(t, p) == ({
        if 0 <= p < t.len() && t[p].kind == TokenKind::Ident && at(t, p + 1, seq!['(']) {
            if at(t, p + 2, seq![')']) {
                Some((AstV::FuncCall(t[p].val@, Seq::empty()), p + 3))
            } else {
                match args_g(t, p + 2, Seq::empty()) {
                    Some((args, q)) => if at(t, q, seq![')']) {
                        Some((AstV::FuncCall(t[p].val@, args), q + 1))
                    } else {
                        None
                    },
                    None => None,
                }
            }
        } else {
            None
        }
        }),
{
    reveal(call_g);
    reveal(args_g);
}

/// One step of `args_g`.
pub proof fn unfold_args_g(t: Seq<Token>, q: int, acc: Seq<AstV>)
    ensures
        args_g(t, q, acc) == ({
        match assign_g(t, q) {
            Some((a, q2)) => if q < q2 <= t.len() {
                if at(t, q2, seq![',']) {
                    args_g(t, q2 + 1, acc.push(a))
                } else {
                    Some((acc.push(a), q2))
                }
            } else {
                None
            },
            None => None,
        }
        }),
{
    reveal(args_g);
    reveal(assign_g);
}

/// `expr_stmt := ";" | expr ";"`; the empty statement is `Nil`.
pub open spec fn expr_stmt_g(t: Seq<Token>, p: int) -> Option<(AstV, int)> {
    if at(t, p, seq![';']) {
        Some((AstV::Nil, p + 1))
    } else {
        match expr_g(t, p) {
            Some((e, q)) => if at(t, q, seq![';']) {
                Some((AstV::ExprStmt(Box::new(e)), q + 1))
            } else {
                None
            },
            None => None,
        }
    }
}

/// `return_stmt := "return" (";" | expr ";")`, from the `return` at `p`.
pub open spec fn return_g(t: Seq<Token>, p: int) -> Option<(AstV, int)> {
    if at(t, p + 1, seq![';']) {
        Some((AstV::Return(None), p + 2))
    } else {
        match expr_g(t, p + 1) {
            Some((e, q)) => if at(t, q, seq![';']) {
                Some((AstV::Return(Some(Box::new(e))), q + 1))
            } else {
                None
            },
            None => None,
        }
    }
}

/// `"(" expr ")"` from token `p`: the condition of an `if` or a `while`.
pub open spec fn cond_g(t: Seq<Token>, p: int) -> Option<(AstV, int)> {
    if at(t, p, seq!['(']) {
        match expr_g(t, p + 1) {
            Some((e, q)) => if at(t, q, seq![')']) {
                Some((e, q + 1))
            } else {
                None
            },
            None => None,
        }
    } else {
        None
    }
}

/// `r` is what the grammar `g` gives, ending at `fin`.
pub open spec fn parsed(r: Result<AST, CompileError>, g: Option<(AstV, int)>, fin: int) -> bool {
    &&& r is Ok <==> g is Some
    &&& r matches Ok(a) ==> g == Some((a@, fin))
}

/// The text of the literals the parser looks for.
pub proof fn lemma_symbols()
    ensures
        "+"@ == seq!['+'],
        "-"@ == seq!['-'],
        "*"@ == seq!['*'],
        "/"@ == seq!['/'],
        "&"@ == seq!['&'],
        "="@ == seq!['='],
        "=="@ == seq!['=', '='],
        "!="@ == seq!['!', '='],
        "<"@ == seq!['<'],
        "<="@ == seq!['<', '='],
        ">"@ == seq!['>'],
        ">="@ == seq!['>', '='],
        "("@ == seq!['('],
        ")"@ == seq![')'],
        "["@ == seq!['['],
        "]"@ == seq![']'],
        "{"@ == seq!['{'],
        "}"@ == seq!['}'],
        ","@ == seq![','],
        ";"@ == seq![';'],
        "sizeof"@ == seq!['s', 'i', 'z', 'e', 'o', 'f'],
        "int"@ == seq!['i', 'n', 't'],
        "return"@ == seq!['r', 'e', 't', 'u', 'r', 'n'],
        "if"@ == seq!['i', 'f'],
        "else"@ == seq!['e', 'l', 's', 'e'],
        "for"@ == seq!['f', 'o', 'r'],
        "while"@ == seq!['w', 'h', 'i', 'l', 'e'],
{
    reveal_strlit("+");
    reveal_strlit("-");
    reveal_strlit("*");
    reveal_strlit("/");
    reveal_strlit("&");
    reveal_strlit("=");
    reveal_strlit("==");
    reveal_strlit("!=");
    reveal_strlit("<");
    reveal_strlit("<=");
    reveal_strlit(">");
    reveal_strlit(">=");
    reveal_strlit("(");
    reveal_strlit(")");
    reveal_strlit("[");
    reveal_strlit("]");
    reveal_strlit("{");
    reveal_strlit("}");
    reveal_strlit(",");
    reveal_strlit(";");
    reveal_strlit("sizeof");
    reveal_strlit("int");
    reveal_strlit("return");
    reveal_strlit("if");
    reveal_strlit("else");
    reveal_strlit("for");
    reveal_strlit("while");
    assert("+"@ =~= seq!['+']);
    assert("-"@ =~= seq!['-']);
    assert("*"@ =~= seq!['*']);
    assert("/"@ =~= seq!['/']);
    assert("&"@ =~= seq!['&']);
    assert("="@ =~= seq!['=']);
    assert("=="@ =~= seq!['=', '=']);
    assert("!="@ =~= seq!['!', '=']);
    assert("<"@ =~= seq!['<']);
    assert("<="@ =~= seq!['<', '=']);
    assert(">"@ =~= seq!['>']);
    assert(">="@ =~= seq!['>', '=']);
    assert("("@ =~= seq!['(']);
    assert(")"@ =~= seq![')']);
    assert("["@ =~= seq!['[']);
    assert("]"@ =~= seq![']']);
    assert("{"@ =~= seq!['{']);
    assert("}"@ =~= seq!['}']);
    assert(","@ =~= seq![',']);
    assert(";"@ =~= seq![';']);
    assert("sizeof"@ =~= seq!['s', 'i', 'z', 'e', 'o', 'f']);
    assert("int"@ =~= seq!['i', 'n', 't']);
    assert("return"@ =~= seq!['r', 'e', 't', 'u', 'r', 'n']);
    assert("if"@ =~= seq!['i', 'f']);
    assert("else"@ =~= seq!['e', 'l', 's', 'e']);
    assert("for"@ =~= seq!['f', 'o', 'r']);
    assert("while"@ =~= seq!['w', 'h', 'i', 'l', 'e']);
}

/// The declarator grammar, over type models. `declarator := "*"* ident
/// suffix`: each `*` wraps the type read so far in a pointer.
#[verifier::opaque]
pub open spec fn declarator_g(t: Seq<Token>, p: int, base: TypeModel) -> Option<(TypeModel, Seq<char>, int)>
    decreases t.len() - p, 3nat,
{
    if at(t, p, seq!['*']) {
        declarator_g(t, p + 1, TypeModel::Ptr(Box::new(base)))
    } else if 0 <= p < t.len() && t[p].kind == TokenKind::Ident {
        match suffix_g(t, p + 1, base) {
            Some((ty, q)) => Some((ty, t[p].val@, q)),
            None => None,
        }
    } else {
        None
    }
}

/// `suffix := "[" int "]" suffix | "(" params | nothing`; the size read
/// first is the outer dimension.
#[verifier::opaque]
pub open spec fn suffix_g(t: Seq<Token>, p: int, ty: TypeModel) -> Option<(TypeModel, int)>
    decreases t.len() - p, 2nat,
{
    if at(t, p, seq!['[']) {
        if p + 1 < t.len() && t[p + 1].kind == TokenKind::IntNum && t[p + 1].val@.len() > 0
            && all_digits(t[p + 1].val@) && digits_value(t[p + 1].val@) <= u32::MAX && at(
            t,
            p + 2,
            seq![']'],
        ) {
            match suffix_g(t, p + 3, ty) {
                Some((inner, q)) => Some(
                    (TypeModel::Array(Box::new(inner), digits_value(t[p + 1].val@) as nat), q),
                ),
                None => None,
            }
        } else {
            None
        }
    } else if at(t, p, seq!['(']) {
        match params_g(t, p + 1) {
            Some((ps, ns, q)) => Some((TypeModel::Func(Box::new(ty), ps, ns), q)),
            None => None,
        }
    } else {
        Some((ty, p))
    }
}

/// `params := ")" | param ("," param)* ")"`, after the `(`.
#[verifier::opaque]
pub open spec fn params_g(t: Seq<Token>, p: int) -> Option<(Seq<TypeModel>, Seq<Seq<char>>, int)>
    decreases t.len() - p, 6nat,
{
    if at(t, p, seq![')']) {
        Some((Seq::empty(), Seq::empty(), p + 1))
    } else {
        params_rest(t, p, Seq::empty(), Seq::empty())
    }
}

/// `param := "int" declarator`, then `,` and more, or the closing `)`.
#[verifier::opaque]
pub open spec fn params_rest(
    t: Seq<Token>,
    q: int,
    ps: Seq<TypeModel>,
    ns: Seq<Seq<char>>,
) -> Option<(Seq<TypeModel>, Seq<Seq<char>>, int)>
    decreases t.len() - q, 5nat,
{
    if at(t, q, seq!['i', 'n', 't']) {
        match declarator_g(t, q + 1, TypeModel::Int) {
            Some((ty, n, q2)) => if q < q2 <= t.len() {
                if at(t, q2, seq![',']) {
                    params_rest(t, q2 + 1, ps.push(ty), ns.push(n))
                } else if at(t, q2, seq![')']) {
                    Some((ps.push(ty), ns.push(n), q2 + 1))
                } else {
                    None
                }
            } else {
                None
            },
            None => None,
        }
    } else {
        None
    }
}

pub proof fn unfold_declarator_g(t: Seq<Token>, p: int, base: TypeModel)
    ensures
        declarator_g(t, p, base) == (if at(t, p, seq!['*']) {
            declarator_g(t, p + 1, TypeModel::Ptr(Box::new(base)))
        } else if 0 <= p < t.len() && t[p].kind == TokenKind::Ident {
            match suffix_g(t, p + 1, base) {
                Some((ty, q)) => Some((ty, t[p].val@, q)),
                None => None,
            }
        } else {
            None
        }),
{
    reveal(declarator_g);
    reveal(suffix_g);
}

pub proof fn unfold_suffix_g(t: Seq<Token>, p: int, ty: TypeModel)
    ensures
        suffix_g(t, p, ty) == (if at(t, p, seq!['[']) {
            if p + 1 < t.len() && t[p + 1].kind == TokenKind::IntNum && t[p + 1].val@.len() > 0
                && all_digits(t[p + 1].val@) && digits_value(t[p + 1].val@) <= u32::MAX && at(
                t,
                p + 2,
                seq![']'],
            ) {
                match suffix_g(t, p + 3, ty) {
                    Some((inner, q)) => Some(
                        (TypeModel::Array(Box::new(inner), digits_value(t[p + 1].val@) as nat), q),
                    ),
                    None => None,
                }
            } else {
                None
            }
        } else if at(t, p, seq!['(']) {
            match params_g(t, p + 1) {
                Some((ps, ns, q)) => Some((TypeModel::Func(Box::new(ty), ps, ns), q)),
                None => None,
            }
        } else {
            Some((ty, p))
        }),
{
    reveal(suffix_g);
    reveal(params_g);
}

pub proof fn unfold_params_g(t: Seq<Token>, p: int)
    ensures
        params_g(t, p) == (if at(t, p, seq![')']) {
            Some((Seq::<TypeModel>::empty(), Seq::<Seq<char>>::empty(), p + 1))
        } else {
            params_rest(t, p, Seq::empty(), Seq::empty())
        }),
{
    reveal(params_g);
    reveal(params_rest);
}

pub proof fn unfold_params_rest(t: Seq<Token>, q: int, ps: Seq<TypeModel>, ns: Seq<Seq<char>>)
    ensures
        params_rest(t, q, ps, ns) == (if at(t, q, seq!['i', 'n', 't']) {
            match declarator_g(t, q + 1, TypeModel::Int) {
                Some((ty, n, q2)) => if q < q2 <= t.len() {
                    if at(t, q2, seq![',']) {
                        params_rest(t, q2 + 1, ps.push(ty), ns.push(n))
                    } else if at(t, q2, seq![')']) {
                        Some((ps.push(ty), ns.push(n), q2 + 1))
                    } else {
                        None
                    }
                } else {
                    None
                },
                None => None,
            }
        } else {
            None
        }),
{
    reveal(params_rest);
    reveal(declarator_g);
}

/// What `params_rest` gives once the parameters in `ps`, `ns` are read and
/// the next token is at `q`.
pub open spec fn params_cont(t: Seq<Token>, q: int, ps: Seq<TypeModel>, ns: Seq<Seq<char>>) -> Option<
    (Seq<TypeModel>, Seq<Seq<char>>, int),
> {
    if at(t, q, seq![',']) {
        params_rest(t, q + 1, ps, ns)
    } else if at(t, q, seq![')']) {
        Some((ps, ns, q + 1))
    } else {
        None
    }
}

pub proof fn lemma_models_of_push(s: Seq<Type>, x: Type)
    ensures
        models_of(s.push(x)) == models_of(s).push(x@),
{
    assert(s.push(x).drop_last() =~= s);
}

pub proof fn lemma_names_push(xs: Seq<String>, x: String)
    ensures
        xs.push(x).map_values(|s: String| s@) == xs.map_values(|s: String| s@).push(x@),
{
    assert(xs.push(x).map_values(|s: String| s@) =~= xs.map_values(|s: String| s@).push(x@));
}

/// `r` is the declarator that the grammar `g` gives, ending at `fin`.
pub open spec fn dparsed(r: Result<(Type, String), CompileError>, g: Option<(TypeModel, Seq<char>, int)>, fin: int) -> bool {
    &&& r is Ok <==> g is Some
    &&& r matches Ok((ty, n)) ==> g == Some((ty@, n@, fin))
}

/// A parameter at `p`: `int` and a declarator.
pub open spec fn param_g(t: Seq<Token>, p: int) -> Option<(TypeModel, Seq<char>, int)> {
    if at(t, p, seq!['i', 'n', 't']) {
        declarator_g(t, p + 1, TypeModel::Int)
    } else {
        None
    }
}

/// `declaration := "int" item ("," item)* ";"` with `item := declarator
/// ("=" expr)?`, read from the `int` at `p`.
pub open spec fn decl_g(t: Seq<Token>, p: int) -> Option<(Seq<AstV>, int)> {
    if at(t, p, seq!['i', 'n', 't']) {
        decl_rest(t, p + 1, Seq::empty())
    } else {
        None
    }
}

/// The items of a declaration from token `q`, after those in `acc`.
#[verifier::opaque]
pub open spec fn decl_rest(t: Seq<Token>, q: int, acc: Seq<AstV>) -> Option<(Seq<AstV>, int)>
    decreases t.len() - q,
{
    match declarator_g(t, q, TypeModel::Int) {
        Some((ty, n, q2)) => if q < q2 <= t.len() {
            let item: Option<(Option<Box<AstV>>, int)> = if at(t, q2, seq!['=']) {
                match expr_g(t, q2 + 1) {
                    Some((e, q3)) => if q2 < q3 <= t.len() {
                        Some((Some(Box::new(e)), q3))
                    } else {
                        None
                    },
                    None => None,
                }
            } else {
                Some((None, q2))
            };
            match item {
                Some((init, qe)) => {
                    let d = AstV::VariableDecl(ty, n, init);
                    if at(t, qe, seq![',']) {
                        decl_rest(t, qe + 1, acc.push(d))
                    } else if at(t, qe, seq![';']) {
                        Some((acc.push(d), qe + 1))
                    } else {
                        None
                    }
                },
                None => None,
            }
        } else {
            None
        },
        None => None,
    }
}

pub proof fn unfold_decl_rest(t: Seq<Token>, q: int, acc: Seq<AstV>)
    ensures
        decl_rest(t, q, acc) == (match declarator_g(t, q, TypeModel::Int) {
            Some((ty, n, q2)) => if q < q2 <= t.len() {
                let item: Option<(Option<Box<AstV>>, int)> = if at(t, q2, seq!['=']) {
                    match expr_g(t, q2 + 1) {
                        Some((e, q3)) => if q2 < q3 <= t.len() {
                            Some((Some(Box::new(e)), q3))
                        } else {
                            None
                        },
                        None => None,
                    }
                } else {
                    Some((None, q2))
                };
                match item {
                    Some((init, qe)) => {
                        let d = AstV::VariableDecl(ty, n, init);
                        if at(t, qe, seq![',']) {
                            decl_rest(t, qe + 1, acc.push(d))
                        } else if at(t, qe, seq![';']) {
                            Some((acc.push(d), qe + 1))
                        } else {
                            None
                        }
                    },
                    None => None,
                }
            } else {
                None
            },
            None => None,
        }),
{
    reveal(decl_rest);
}

/// The statement grammar. `stmt := return_stmt | "if" cond stmt ("else"
/// stmt)? | "for" "(" expr_stmt expr? ";" expr? ")" stmt | "while" cond stmt
/// | "{" block | expr_stmt`; an absent `else`, condition or step is `Nil`.
#[verifier::opaque]
pub open spec fn stmt_g(t: Seq<Token>, p: int) -> Option<(AstV, int)>
    decreases t.len() - p, 1nat,
{
    if at(t, p, seq!['r', 'e', 't', 'u', 'r', 'n']) {
        return_g(t, p)
    } else if at(t, p, seq!['i', 'f']) {
        match cond_g(t, p + 1) {
            Some((c, q)) => if p < q {
                match stmt_g(t, q) {
                    Some((th, q2)) => if q < q2 <= t.len() {
                        if at(t, q2, seq!['e', 'l', 's', 'e']) {
                            match stmt_g(t, q2 + 1) {
                                Some((el, q3)) => Some(
                                    (AstV::If(Box::new(c), Box::new(th), Box::new(el)), q3),
                                ),
                                None => None,
                            }
                        } else {
                            Some((AstV::If(Box::new(c), Box::new(th), Box::new(AstV::Nil)), q2))
                        }
                    } else {
                        None
                    },
                    None => None,
                }
            } else {
                None
            },
            None => None,
        }
    } else if at(t, p, seq!['f', 'o', 'r']) {
        if at(t, p + 1, seq!['(']) {
            match for_head_g(t, p + 2) {
                Some((i, c, s, q)) => if p < q {
                    match stmt_g(t, q) {
                        Some((b, q2)) => Some(
                            (AstV::For(Box::new(i), Box::new(c), Box::new(s), Box::new(b)), q2),
                        ),
                        None => None,
                    }
                } else {
                    None
                },
                None => None,
            }
        } else {
            None
        }
    } else if at(t, p, seq!['w', 'h', 'i', 'l', 'e']) {
        match cond_g(t, p + 1) {
            Some((c, q)) => if p < q {
                match stmt_g(t, q) {
                    Some((b, q2)) => Some((AstV::While(Box::new(c), Box::new(b)), q2)),
                    None => None,
                }
            } else {
                None
            },
            None => None,
        }
    } else if at(t, p, seq!['{']) {
        compound_g(t, p + 1, Seq::empty())
    } else {
        expr_stmt_g(t, p)
    }
}

/// The parts of a `for` after its `(`: init statement, condition, step, and
/// the position after the `)`.
pub open spec fn for_head_g(t: Seq<Token>, p: int) -> Option<(AstV, AstV, AstV, int)> {
    match expr_stmt_g(t, p) {
        Some((i, q1)) => {
            let cond: Option<(AstV, int)> = if at(t, q1, seq![';']) {
                Some((AstV::Nil, q1 + 1))
            } else {
                match expr_g(t, q1) {
                    Some((c, q)) => if at(t, q, seq![';']) {
                        Some((c, q + 1))
                    } else {
                        None
                    },
                    None => None,
                }
            };
            match cond {
                Some((c, q2)) => {
                    let step: Option<(AstV, int)> = if at(t, q2, seq![')']) {
                        Some((AstV::Nil, q2 + 1))
                    } else {
                        match expr_g(t, q2) {
                            Some((s, q)) => if at(t, q, seq![')']) {
                                Some((s, q + 1))
                            } else {
                                None
                            },
                            None => None,
                        }
                    };
                    match step {
                        Some((s, q3)) => Some((i, c, s, q3)),
                        None => None,
                    }
                },
                None => None,
            }
        },
        None => None,
    }
}

/// The statements of a block from token `q` up to its `}`, after those in
/// `acc`; a declaration adds one statement per declarator.
#[verifier::opaque]
pub open spec fn compound_g(t: Seq<Token>, q: int, acc: Seq<AstV>) -> Option<(AstV, int)>
    decreases t.len() - q, 2nat,
{
    if at(t, q, seq!['}']) {
        Some((AstV::Block(acc), q + 1))
    } else if at(t, q, seq!['i', 'n', 't']) {
        match decl_g(t, q) {
            Some((ds, q2)) => if q < q2 <= t.len() {
                compound_g(t, q2, acc + ds)
            } else {
                None
            },
            None => None,
        }
    } else {
        match stmt_g(t, q) {
            Some((s, q2)) => if q < q2 <= t.len() {
                compound_g(t, q2, acc.push(s))
            } else {
                None
            },
            None => None,
        }
    }
}

pub proof fn unfold_stmt_g(t: Seq<Token>, p: int)
    ensures
        stmt_g(t, p) == (if at(t, p, seq!['r', 'e', 't', 'u', 'r', 'n']) {
            return_g(t, p)
        } else if at(t, p, seq!['i', 'f']) {
            match cond_g(t, p + 1) {
                Some((c, q)) => if p < q {
                    match stmt_g(t, q) {
                        Some((th, q2)) => if q < q2 <= t.len() {
                            if at(t, q2, seq!['e', 'l', 's', 'e']) {
                                match stmt_g(t, q2 + 1) {
                                    Some((el, q3)) => Some(
                                        (AstV::If(Box::new(c), Box::new(th), Box::new(el)), q3),
                                    ),
                                    None => None,
                                }
                            } else {
                                Some((AstV::If(Box::new(c), Box::new(th), Box::new(AstV::Nil)), q2))
                            }
                        } else {
                            None
                        },
                        None => None,
                    }
                } else {
                    None
                },
                None => None,
            }
        } else if at(t, p, seq!['f', 'o', 'r']) {
            if at(t, p + 1, seq!['(']) {
                match for_head_g(t, p + 2) {
                    Some((i, c, s, q)) => if p < q {
                        match stmt_g(t, q) {
                            Some((b, q2)) => Some(
                                (AstV::For(Box::new(i), Box::new(c), Box::new(s), Box::new(b)), q2),
                            ),
                            None => None,
                        }
                    } else {
                        None
                    },
                    None => None,
                }
            } else {
                None
            }
        } else if at(t, p, seq!['w', 'h', 'i', 'l', 'e']) {
            match cond_g(t, p + 1) {
                Some((c, q)) => if p < q {
                    match stmt_g(t, q) {
                        Some((b, q2)) => Some((AstV::While(Box::new(c), Box::new(b)), q2)),
                        None => None,
                    }
                } else {
                    None
                },
                None => None,
            }
        } else if at(t, p, seq!['{']) {
            compound_g(t, p + 1, Seq::empty())
        } else {
            expr_stmt_g(t, p)
        }),
{
    reveal(stmt_g);
    reveal(compound_g);
}

pub proof fn unfold_compound_g(t: Seq<Token>, q: int, acc: Seq<AstV>)
    ensures
        compound_g(t, q, acc) == (if at(t, q, seq!['}']) {
            Some((AstV::Block(acc), q + 1))
        } else if at(t, q, seq!['i', 'n', 't']) {
            match decl_g(t, q) {
                Some((ds, q2)) => if q < q2 <= t.len() {
                    compound_g(t, q2, acc + ds)
                } else {
                    None
                },
                None => None,
            }
        } else {
            match stmt_g(t, q) {
                Some((s, q2)) => if q < q2 <= t.len() {
                    compound_g(t, q2, acc.push(s))
                } else {
                    None
                },
                None => None,
            }
        }),
{
    reveal(compound_g);
    reveal(stmt_g);
}

/// `funcdef := "int" declarator "{" block`.
pub open spec fn funcdef_g(t: Seq<Token>, p: int) -> Option<(AstV, int)> {
    if at(t, p, seq!['i', 'n', 't']) {
        match declarator_g(t, p + 1, TypeModel::Int) {
            Some((ty, n, q)) => if at(t, q, seq!['{']) {
                match compound_g(t, q + 1, Seq::empty()) {
                    Some((b, q2)) => Some((AstV::FuncDef(ty, n, Box::new(b)), q2)),
                    None => None,
                }
            } else {
                None
            },
            None => None,
        }
    } else {
        None
    }
}

/// Whether token `p` ends the input: past the last token, or an end token.
pub open spec fn at_end(t: Seq<Token>, p: int) -> bool {
    !(0 <= p < t.len()) || t[p].kind == TokenKind::Eof
}

/// `program := funcdef*` up to the end of the input, after those in `acc`.
pub open spec fn program_g(t: Seq<Token>, p: int, acc: Seq<AstV>) -> Option<Seq<AstV>>
    decreases t.len() - p,
{
    if at_end(t, p) {
        Some(acc)
    } else {
        match funcdef_g(t, p) {
            Some((f, q)) => if p < q <= t.len() {
                program_g(t, q, acc.push(f))
            } else {
                None
            },
            None => None,
        }
    }
}

/// The locals that a tree declares, in source order.
pub open spec fn decl_locals(a: AstV) -> Seq<(Seq<char>, TypeModel)>
    decreases a,
{
    match a {
        AstV::VariableDecl(t, n, _) => seq![(n, t)],
        AstV::Block(v) => decls_locals(v),
        AstV::If(_, th, el) => decl_locals(*th) + decl_locals(*el),
        AstV::For(i, _, _, b) => decl_locals(*i) + decl_locals(*b),
        AstV::While(_, b) => decl_locals(*b),
        _ => Seq::empty(),
    }
}

pub open spec fn decls_locals(s: Seq<AstV>) -> Seq<(Seq<char>, TypeModel)>
    decreases s,
{
    if s.len() == 0 {
        Seq::empty()
    } else {
        decls_locals(s.drop_last()) + decl_locals(s.last())
    }
}

/// The table of locals as names and type models.
pub open spec fn locals_view(l: Seq<(String, Type)>) -> Seq<(Seq<char>, TypeModel)> {
    l.map_values(|p: (String, Type)| (p.0@, p.1@))
}

pub proof fn lemma_decls_locals_append(s: Seq<AstV>, t: Seq<AstV>)
    ensures
        decls_locals(s + t) == decls_locals(s) + decls_locals(t),
    decreases t.len(),
{
    if t.len() == 0 {
        assert(s + t =~= s);
        assert(decls_locals(s) + decls_locals(t) =~= decls_locals(s));
    } else {
        lemma_decls_locals_append(s, t.drop_last());
        assert((s + t).drop_last() =~= s + t.drop_last());
        assert(decls_locals(s) + decls_locals(t) =~= decls_locals(s) + decls_locals(t.drop_last())
            + decl_locals(t.last()));
    }
}

pub proof fn lemma_locals_view_push(l: Seq<(String, Type)>, x: (String, Type))
    ensures
        locals_view(l.push(x)) == locals_view(l).push((x.0@, x.1@)),
{
    assert(locals_view(l.push(x)) =~= locals_view(l).push((x.0@, x.1@)));
}

} // verus!
