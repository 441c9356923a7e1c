//! The abstract syntax tree that the parser builds and the code generator reads.
use vstd::prelude::*;
use crate::types::{Type, TypeModel};

verus! {

#[derive(Debug, PartialEq, Eq)]
pub enum AST {
    Int(i32),
    /// A floating-point literal, kept as its source text.
    Float(String),
    BinaryOp(Box<AST>, Box<AST>, BinaryOps),
    UnaryOp(Box<AST>, UnaryOps),
    /// A name; lowered on its own it denotes the variable's storage address.
    Variable(String),
    /// The value stored at the location that the inner node denotes.
    Load(Box<AST>),
    /// Declared type, name, and initializer.
    VariableDecl(Type, String, Option<Box<AST>>),
    Return(Option<Box<AST>>),
    ExprStmt(Box<AST>),
    Block(Vec<AST>),
    /// Condition, then-branch, else-branch (`Nil` when absent).
    If(Box<AST>, Box<AST>, Box<AST>),
    /// Init, condition (`Nil` when absent), step (`Nil` when absent), body.
    For(Box<AST>, Box<AST>, Box<AST>, Box<AST>),
    /// Condition, body.
    While(Box<AST>, Box<AST>),
    /// Callee name, arguments.
    FuncCall(String, Vec<AST>),
    /// Function type, name, body.
    FuncDef(Type, String, Box<AST>),
    /// An absent optional clause.
    Nil,
}

#[derive(Debug, Clone, Copy, PartialEq, Eq, Structural)]
pub enum BinaryOps {
    Add,
    Sub,
    Mul,
    Div,
    Eq,
    Ne,
    Lt,
    Le,
    Assign,
}

#[derive(Debug, Clone, Copy, PartialEq, Eq, Structural)]
pub enum UnaryOps {
    Plus,
    Minus,
    Addr,
    Deref,
    Sizeof,
}

pub open spec fn abs(a: int) -> int {
    if a < 0 {
        -a
    } else {
        a
    }
}

/// Division that truncates toward zero, as C's `/` does.
pub open spec fn trunc_div(a: int, b: int) -> int {
    if (a >= 0) == (b > 0) || a == 0 {
        abs(a) / abs(b)
    } else {
        -(abs(a) / abs(b))
    }
}

pub open spec fn is_i32(v: int) -> bool {
    i32::MIN <= v <= i32::MAX
}

/// The mathematical result of a binary operator; `None` for division by zero
/// and for assignment, which has no constant value.
pub open spec fn apply_op(op: BinaryOps, x: int, y: int) -> Option<int> {
    match op {
        BinaryOps::Add => Some(x + y),
        BinaryOps::Sub => Some(x - y),
        BinaryOps::Mul => Some(x * y),
        BinaryOps::Div => if y == 0 {
            None
        } else {
            Some(trunc_div(x, y))
        },
        BinaryOps::Eq => Some(if x == y { 1 } else { 0 }),
        BinaryOps::Ne => Some(if x != y { 1 } else { 0 }),
        BinaryOps::Lt => Some(if x < y { 1 } else { 0 }),
        BinaryOps::Le => Some(if x <= y { 1 } else { 0 }),
        BinaryOps::Assign => None,
    }
}

/// The value of a constant expression, evaluated exactly; `None` when it is
/// not made of integer literals and binary operators, divides by zero, or
/// has a partial result outside the range of `i32`.
pub open spec fn const_eval(a: AST) -> Option<int>
    decreases a,
{
    match a {
        AST::Int(n) => Some(n as int),
        AST::BinaryOp(l, r, op) => match (const_eval(*l), const_eval(*r)) {
            (Some(x), Some(y)) => match apply_op(op, x, y) {
                Some(v) => if is_i32(v) {
                    Some(v)
                } else {
                    None
                },
                None => None,
            },
            _ => None,
        },
        _ => None,
    }
}

/// Whether lowering `a` creates basic blocks or ends the current one.
pub open spec fn opens_blocks(a: AST) -> bool
    decreases a,
{
    match a {
        AST::If(..) | AST::For(..) | AST::While(..) | AST::Return(_) => true,
        AST::BinaryOp(l, r, _) => opens_blocks(*l) || opens_blocks(*r),
        AST::UnaryOp(e, _) => opens_blocks(*e),
        AST::Load(e) => opens_blocks(*e),
        AST::ExprStmt(e) => opens_blocks(*e),
        AST::VariableDecl(_, _, Some(e)) => opens_blocks(*e),
        AST::Block(v) => any_opens_blocks(v@),
        AST::FuncCall(_, v) => any_opens_blocks(v@),
        _ => false,
    }
}

pub open spec fn any_opens_blocks(s: Seq<AST>) -> bool
    decreases s,
{
    if s.len() == 0 {
        false
    } else {
        any_opens_blocks(s.drop_last()) || opens_blocks(s.last())
    }
}

pub proof fn lemma_any_opens_blocks(s: Seq<AST>)
    ensures
        !any_opens_blocks(s) ==> forall|i: int| 0 <= i < s.len() ==> !opens_blocks(#[trigger] s[i]),
    decreases s.len(),
{
    if s.len() > 0 {
        lemma_any_opens_blocks(s.drop_last());
        if !any_opens_blocks(s) {
            assert forall|i: int| 0 <= i < s.len() implies !opens_blocks(#[trigger] s[i]) by {
                if i < s.len() - 1 {
                    assert(s[i] == s.drop_last()[i]);
                }
            }
        }
    }
}

pub open spec fn opt_int(r: Option<i32>) -> Option<int> {
    match r {
        Some(v) => Some(v as int),
        None => None,
    }
}

impl AST {
    /// Evaluates a constant expression of integer literals and binary operators.
    pub fn eval_const_expr(&self) -> (r: Option<i32>)
        ensures
            opt_int(r) == const_eval(*self),
        decreases self,
    {
        match self {
            AST::Int(n) => Some(*n),
            AST::BinaryOp(l, r, op) => {
                let x = match l.eval_const_expr() {
                    Some(x) => x,
                    None => return None,
                };
                let y = match r.eval_const_expr() {
                    Some(y) => y,
                    None => return None,
                };
                match op {
                    BinaryOps::Add => x.checked_add(y),
                    BinaryOps::Sub => x.checked_sub(y),
                    BinaryOps::Mul => x.checked_mul(y),
                    BinaryOps::Div => div_trunc(x, y),
                    BinaryOps::Eq => Some(if x == y { 1 } else { 0 }),
                    BinaryOps::Ne => Some(if x != y { 1 } else { 0 }),
                    BinaryOps::Lt => Some(if x < y { 1 } else { 0 }),
                    BinaryOps::Le => Some(if x <= y { 1 } else { 0 }),
                    BinaryOps::Assign => None,
                }
            },
            _ => None,
        }
    }
}

/// `x / y` truncated toward zero; `None` when `y` is zero or the quotient
/// does not fit.
pub fn div_trunc(x: i32, y: i32) -> (r: Option<i32>)
    ensures
        opt_int(r) == (if y == 0 || !is_i32(trunc_div(x as int, y as int)) {
            None
        } else {
            Some(trunc_div(x as int, y as int))
        }),
{
    if y == 0 {
        return None;
    }
    let ax: i64 = if x < 0 { -(x as i64) } else { x as i64 };
    let ay: i64 = if y < 0 { -(y as i64) } else { y as i64 };
    let q: i64 = ax / ay;
    proof {
        assert(0 <= q <= ax) by (nonlinear_arith)
            requires
                q == ax / ay,
                ax >= 0,
                ay >= 1,
        ;
    }
    let v: i64 = if (x >= 0) == (y > 0) || x == 0 { q } else { -q };
    if v < i32::MIN as i64 || v > i32::MAX as i64 {
        None
    } else {
        Some(v as i32)
    }
}

/// The mathematical value of a tree: names as character sequences, child
/// lists as sequences, types as their models.
pub enum AstV {
    Int(i32),
    Float(Seq<char>),
    BinaryOp(Box<AstV>, Box<AstV>, BinaryOps),
    UnaryOp(Box<AstV>, UnaryOps),
    Variable(Seq<char>),
    Load(Box<AstV>),
    VariableDecl(TypeModel, Seq<char>, Option<Box<AstV>>),
    Return(Option<Box<AstV>>),
    ExprStmt(Box<AstV>),
    Block(Seq<AstV>),
    If(Box<AstV>, Box<AstV>, Box<AstV>),
    For(Box<AstV>, Box<AstV>, Box<AstV>, Box<AstV>),
    While(Box<AstV>, Box<AstV>),
    FuncCall(Seq<char>, Seq<AstV>),
    FuncDef(TypeModel, Seq<char>, Box<AstV>),
    Nil,
}

pub open spec fn ast_view(a: AST) -> AstV
    decreases a,
{
    match a {
        AST::Int(n) => AstV::Int(n),
        AST::Float(s) => AstV::Float(s@),
        AST::BinaryOp(l, r, op) => AstV::BinaryOp(Box::new(ast_view(*l)), Box::new(ast_view(*r)), op),
        AST::UnaryOp(e, op) => AstV::UnaryOp(Box::new(ast_view(*e)), op),
        AST::Variable(n) => AstV::Variable(n@),
        AST::Load(e) => AstV::Load(Box::new(ast_view(*e))),
        AST::VariableDecl(t, n, init) => AstV::VariableDecl(
            t@,
            n@,
            match init {
                Some(e) => Some(Box::new(ast_view(*e))),
                None => None,
            },
        ),
        AST::Return(v) => AstV::Return(
            match v {
                Some(e) => Some(Box::new(ast_view(*e))),
                None => None,
            },
        ),
        AST::ExprStmt(e) => AstV::ExprStmt(Box::new(ast_view(*e))),
        AST::Block(v) => AstV::Block(asts_view(v@)),
        AST::If(c, t, e) => AstV::If(
            Box::new(ast_view(*c)),
            Box::new(ast_view(*t)),
            Box::new(ast_view(*e)),
        ),
        AST::For(i, c, s, b) => AstV::For(
            Box::new(ast_view(*i)),
            Box::new(ast_view(*c)),
            Box::new(ast_view(*s)),
            Box::new(ast_view(*b)),
        ),
        AST::While(c, b) => AstV::While(Box::new(ast_view(*c)), Box::new(ast_view(*b))),
        AST::FuncCall(n, v) => AstV::FuncCall(n@, asts_view(v@)),
        AST::FuncDef(t, n, b) => AstV::FuncDef(t@, n@, Box::new(ast_view(*b))),
        AST::Nil => AstV::Nil,
    }
}

pub open spec fn asts_view(s: Seq<AST>) -> Seq<AstV>
    decreases s,
{
    if s.len() == 0 {
        Seq::empty()
    } else {
        asts_view(s.drop_last()).push(ast_view(s.last()))
    }
}

impl View for AST {
    type V = AstV;

    open spec fn view(&self) -> AstV {
        ast_view(*self)
    }
}

pub proof fn lemma_asts_view_append(s: Seq<AST>, t: Seq<AST>)
    ensures
        asts_view(s + t) == asts_view(s) + asts_view(t),
    decreases t.len(),
{
    if t.len() == 0 {
        assert(s + t =~= s);
        assert(asts_view(s) + asts_view(t) =~= asts_view(s));
    } else {
        lemma_asts_view_append(s, t.drop_last());
        assert((s + t).drop_last() =~= s + t.drop_last());
        assert(asts_view(s) + asts_view(t) =~= asts_view(s) + asts_view(t.drop_last()) + seq![ast_view(t.last())]);
    }
}

pub proof fn lemma_asts_view_push(s: Seq<AST>, a: AST)
    ensures
        asts_view(s.push(a)) == asts_view(s).push(ast_view(a)),
{
    assert(s.push(a).drop_last() =~= s);
}

} // verus!
