use ironcc::error::{CompileError, ErrorKind};
use ironcc::lexer::tokenize;
use ironcc::node::{BinaryOps, UnaryOps, AST};
use ironcc::parser::{parse, Parser};
use ironcc::types::Type;

fn program(src: &str) -> Result<Vec<AST>, CompileError> {
    parse("t.c".to_string(), tokenize("t.c".to_string(), src).unwrap())
}

fn body(src: &str) -> Vec<AST> {
    match program(src).unwrap().remove(0) {
        AST::FuncDef(_, _, b) => match *b {
            AST::Block(v) => v,
            _ => panic!("body is not a block"),
        },
        _ => panic!("not a function"),
    }
}

fn returned(src: &str) -> AST {
    match body(src).remove(0) {
        AST::Return(Some(e)) => *e,
        _ => panic!("not a return"),
    }
}

fn bin(l: AST, r: AST, op: BinaryOps) -> AST {
    AST::BinaryOp(Box::new(l), Box::new(r), op)
}

fn var(n: &str) -> AST {
    AST::Load(Box::new(AST::Variable(n.to_string())))
}

#[test]
fn precedence_of_multiplication() {
    let e = returned("int main() { return 2+3*4; }");
    assert_eq!(e, bin(AST::Int(2), bin(AST::Int(3), AST::Int(4), BinaryOps::Mul), BinaryOps::Add));
    assert_eq!(e.eval_const_expr(), Some(14));
}

#[test]
fn subtraction_is_left_associative() {
    let e = returned("int main() { return 10-4-3; }");
    assert_eq!(e.eval_const_expr(), Some(3));
    let d = returned("int main() { return 100/10/5; }");
    assert_eq!(d.eval_const_expr(), Some(2));
}

#[test]
fn parentheses_group() {
    let e = returned("int main() { return (2+3)*4; }");
    assert_eq!(e.eval_const_expr(), Some(20));
}

#[test]
fn greater_than_swaps_operands() {
    let e = returned("int main() { return 1 > 2; }");
    assert_eq!(e, bin(AST::Int(2), AST::Int(1), BinaryOps::Lt));
    let f = returned("int main() { return 1 >= 2; }");
    assert_eq!(f, bin(AST::Int(2), AST::Int(1), BinaryOps::Le));
    assert_eq!(e.eval_const_expr(), Some(0));
}

#[test]
fn equality_binds_looser_than_relational() {
    let e = returned("int main() { return 1 < 2 == 1; }");
    assert_eq!(e, bin(bin(AST::Int(1), AST::Int(2), BinaryOps::Lt), AST::Int(1), BinaryOps::Eq));
    assert_eq!(e.eval_const_expr(), Some(1));
}

#[test]
fn assignment_is_right_associative_with_bare_target() {
    let v = body("int main() { int a; int b; a = b = 3; }");
    assert_eq!(
        v[2],
        AST::ExprStmt(Box::new(bin(
            AST::Variable("a".to_string()),
            bin(AST::Variable("b".to_string()), AST::Int(3), BinaryOps::Assign),
            BinaryOps::Assign
        )))
    );
}

#[test]
fn indexing_is_deref_of_sum() {
    let v = body("int main() { int *p; int a[3]; a[1] = 5; }");
    assert_eq!(v[0], AST::VariableDecl(Type::Ptr(Box::new(Type::Int)), "p".to_string(), None));
    assert_eq!(v[1], AST::VariableDecl(Type::Array(Box::new(Type::Int), 3), "a".to_string(), None));
    let target = AST::UnaryOp(Box::new(bin(var("a"), AST::Int(1), BinaryOps::Add)), UnaryOps::Deref);
    assert_eq!(v[2], AST::ExprStmt(Box::new(bin(target, AST::Int(5), BinaryOps::Assign))));
}

#[test]
fn multidimensional_array_nests_outer_first() {
    let v = body("int main() { int a[2][3]; }");
    let t = Type::Array(Box::new(Type::Array(Box::new(Type::Int), 3)), 2);
    assert_eq!(v[0], AST::VariableDecl(t, "a".to_string(), None));
}

#[test]
fn declarations_with_initializers() {
    let v = body("int main() { int x = 1, *y, z = x; }");
    assert_eq!(v.len(), 3);
    assert_eq!(v[0], AST::VariableDecl(Type::Int, "x".to_string(), Some(Box::new(AST::Int(1)))));
    assert_eq!(v[1], AST::VariableDecl(Type::Ptr(Box::new(Type::Int)), "y".to_string(), None));
    assert_eq!(v[2], AST::VariableDecl(Type::Int, "z".to_string(), Some(Box::new(var("x")))));
}

#[test]
fn function_signature_with_parameters() {
    let p = program("int add(int a, int *b) { return a; } int main() { return add(1, 2); }").unwrap();
    assert_eq!(p.len(), 2);
    match &p[0] {
        AST::FuncDef(t, n, _) => {
            assert_eq!(n, "add");
            assert_eq!(
                *t,
                Type::Func(
                    Box::new(Type::Int),
                    vec![Type::Int, Type::Ptr(Box::new(Type::Int))],
                    vec!["a".to_string(), "b".to_string()]
                )
            );
        }
        _ => panic!("not a function"),
    }
    match &p[1] {
        AST::FuncDef(_, _, b) => match &**b {
            AST::Block(v) => assert_eq!(
                v[0],
                AST::Return(Some(Box::new(AST::FuncCall("add".to_string(), vec![AST::Int(1), AST::Int(2)]))))
            ),
            _ => panic!("body"),
        },
        _ => panic!("not a function"),
    }
}

#[test]
fn control_flow_statements() {
    let v = body("int main() { int i; if (1) return 1; else return 2; for (i = 0; i < 3; i = i + 1) { } while (i) i = i - 1; for (;;) ; return; }");
    assert!(matches!(v[1], AST::If(..)));
    match &v[2] {
        AST::For(init, cond, step, b) => {
            assert!(matches!(**init, AST::ExprStmt(_)));
            assert!(matches!(**cond, AST::BinaryOp(_, _, BinaryOps::Lt)));
            assert!(matches!(**step, AST::BinaryOp(_, _, BinaryOps::Assign)));
            assert_eq!(**b, AST::Block(vec![]));
        }
        _ => panic!("not a for"),
    }
    assert!(matches!(v[3], AST::While(..)));
    assert_eq!(v[4], AST::For(Box::new(AST::Nil), Box::new(AST::Nil), Box::new(AST::Nil), Box::new(AST::Nil)));
    assert_eq!(v[5], AST::Return(None));
}

#[test]
fn unary_and_sizeof() {
    let e = match body("int main() { int x; return -x + sizeof x + *&x; }").remove(1) {
        AST::Return(Some(e)) => *e,
        _ => panic!("not a return"),
    };
    let expected = bin(
        bin(
            AST::UnaryOp(Box::new(var("x")), UnaryOps::Minus),
            AST::UnaryOp(Box::new(var("x")), UnaryOps::Sizeof),
            BinaryOps::Add,
        ),
        AST::UnaryOp(Box::new(AST::UnaryOp(Box::new(var("x")), UnaryOps::Addr)), UnaryOps::Deref),
        BinaryOps::Add,
    );
    assert_eq!(e, expected);
}

#[test]
fn float_literal_is_kept_as_text() {
    let e = returned("int main() { return 1.25; }");
    assert_eq!(e, AST::Float("1.25".to_string()));
}

#[test]
fn missing_token_is_reported() {
    let r = program("int main() { return 1 }");
    assert_eq!(r, Err(CompileError::UnexpectedToken(";".to_string(), "}".to_string(), 0)));
    assert_eq!(r.unwrap_err().kind(), ErrorKind::Syntax);
}

#[test]
fn unknown_type_is_reported() {
    let r = program("float main() { }");
    assert_eq!(r, Err(CompileError::UnknownType(0)));
    assert_eq!(r.unwrap_err().kind(), ErrorKind::Type);
}

#[test]
fn literal_required() {
    assert_eq!(program("int main() { return ; ; }").unwrap().len(), 1);
    let r = program("int main() { return +; }");
    assert_eq!(r, Err(CompileError::NumericLiteralExpected(0)));
}

#[test]
fn identifier_required() {
    let r = program("int 3() { }");
    assert_eq!(r, Err(CompileError::IdentifierExpected(0)));
}

#[test]
fn oversized_literals_are_malformed() {
    assert_eq!(program("int main() { return 2147483648; }"), Err(CompileError::MalformedLiteral(0)));
    assert_eq!(returned("int main() { return 2147483647; }"), AST::Int(2147483647));
    assert_eq!(program("int main() { return 1.2.3; }"), Err(CompileError::MalformedLiteral(0)));
    assert_eq!(program("int main() { int a[1.5]; }"), Err(CompileError::MalformedLiteral(0)));
}

#[test]
fn parser_cursor_and_locals() {
    let toks = tokenize("t.c".to_string(), "int x").unwrap();
    let mut p = Parser::new("t.c".to_string(), toks);
    assert_eq!(p.get_filepath(), "t.c");
    assert_eq!(p.cur().val, "int");
    assert_eq!(p.peek().val, "x");
    assert!(!p.consume("x"));
    assert!(p.consume("int"));
    assert!(p.consume_expected("(").is_err());
    assert_eq!(p.next().val, "x");
    assert!(p.cur().is_eof());
    assert!(p.next().is_eof());
    p.new_lvar("x".to_string(), Type::Int);
    assert_eq!(p.locals.len(), 1);
    assert_eq!(p.locals[0].0, "x");
}

#[test]
fn empty_program() {
    assert_eq!(program("").unwrap(), vec![]);
}
