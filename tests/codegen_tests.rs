use ironcc::codegen::{inside_load, Codegen};
use ironcc::error::{CompileError, ErrorKind};
use ironcc::ir::{ArithOp, CmpPred, Function, Inst, Module, Operand, Terminator};
use ironcc::lexer::tokenize;
use ironcc::node::AST;
use ironcc::parser::parse;
use ironcc::types::{size_of, Type};

fn try_compile(src: &str) -> Result<Module, CompileError> {
    let prog = parse("t.c".to_string(), tokenize("t.c".to_string(), src).unwrap())?;
    let mut cg = Codegen::new("t");
    cg.gen_program(&prog)?;
    Ok(cg.module)
}

fn compile(src: &str) -> Module {
    try_compile(src).unwrap()
}

/// Evaluates an operand made of constants and arithmetic, wrapping as the IR does.
fn eval(f: &Function, op: Operand) -> Option<i32> {
    match op {
        Operand::Const(c) => Some(c),
        Operand::Param(_) => None,
        Operand::Inst(k) => match &f.insts[k] {
            Inst::Arith(o, a, b) => {
                let (x, y) = (eval(f, *a)?, eval(f, *b)?);
                match o {
                    ArithOp::Add => Some(x.wrapping_add(y)),
                    ArithOp::Sub => Some(x.wrapping_sub(y)),
                    ArithOp::Mul => Some(x.wrapping_mul(y)),
                    ArithOp::SDiv => x.checked_div(y),
                }
            }
            Inst::Cmp(p, a, b) => {
                let (x, y) = (eval(f, *a)?, eval(f, *b)?);
                let r = match p {
                    CmpPred::Eq => x == y,
                    CmpPred::Ne => x != y,
                    CmpPred::Slt => x < y,
                    CmpPred::Sle => x <= y,
                };
                Some(r as i32)
            }
            Inst::Neg(a) => Some(eval(f, *a)?.wrapping_neg()),
            _ => None,
        },
    }
}

fn returned_operand(f: &Function, block: usize) -> Operand {
    match f.blocks[block].term {
        Some(Terminator::Ret(Some(op))) => op,
        other => panic!("not a value return: {:?}", other),
    }
}

fn alloca_of(f: &Function, name: &str) -> Vec<usize> {
    (0..f.insts.len())
        .filter(|k| matches!(&f.insts[*k], Inst::Alloca(_, n) if n == name))
        .collect()
}

#[test]
fn constant_arithmetic_matches_direct_evaluation() {
    for (src, expected) in [
        ("2+3*4", 14),
        ("(2+3)*4", 20),
        ("10-4-3", 3),
        ("100/10/5", 2),
        ("7/2", 3),
        ("1 < 2", 1),
        ("3 != 3", 0),
    ] {
        let m = compile(&format!("int main() {{ return {}; }}", src));
        let f = &m.funcs[0];
        assert_eq!(eval(f, returned_operand(f, 0)), Some(expected), "{}", src);
    }
}

#[test]
fn constant_evaluation_of_tree() {
    let e = AST::BinaryOp(Box::new(AST::Int(7)), Box::new(AST::Int(-2)), ironcc::node::BinaryOps::Div);
    assert_eq!(e.eval_const_expr(), Some(-3));
    let z = AST::BinaryOp(Box::new(AST::Int(1)), Box::new(AST::Int(0)), ironcc::node::BinaryOps::Div);
    assert_eq!(z.eval_const_expr(), None);
    let o = AST::BinaryOp(Box::new(AST::Int(i32::MAX)), Box::new(AST::Int(1)), ironcc::node::BinaryOps::Add);
    assert_eq!(o.eval_const_expr(), None);
    assert_eq!(AST::Nil.eval_const_expr(), None);
}

#[test]
fn address_of_twice_is_the_same_slot() {
    let m = compile("int main() { int v; int *a; int *b; a = &v; b = &v; return 0; }");
    let f = &m.funcs[0];
    let slot = alloca_of(f, "v")[0];
    let stores: Vec<&Inst> = f.insts.iter().filter(|i| matches!(i, Inst::Store(..))).collect();
    assert_eq!(stores.len(), 2);
    assert!(matches!(stores[0], Inst::Store(Operand::Inst(s), _) if *s == slot));
    assert!(matches!(stores[1], Inst::Store(Operand::Inst(s), _) if *s == slot));
}

#[test]
fn deref_of_address_reads_the_stored_slot() {
    let m = compile("int main() { int v; v = 7; return *&v; }");
    let f = &m.funcs[0];
    let slot = alloca_of(f, "v")[0];
    assert!(f.insts.iter().any(|i| *i == Inst::Store(Operand::Const(7), Operand::Inst(slot))));
    match returned_operand(f, 0) {
        Operand::Inst(k) => assert_eq!(f.insts[k], Inst::Load(Operand::Inst(slot), Type::Int)),
        other => panic!("unexpected {:?}", other),
    }
}

#[test]
fn pointer_addition_scales_by_pointee() {
    let m = compile("int main() { int *p; int *q; q = p + 1; q = p - 2; q = 3 + p; return 0; }");
    let f = &m.funcs[0];
    let geps: Vec<&Inst> = f.insts.iter().filter(|i| matches!(i, Inst::Gep(..))).collect();
    assert_eq!(geps.len(), 3);
    match geps[0] {
        Inst::Gep(_, Operand::Const(1), elem) => {
            assert_eq!(*elem, Type::Int);
            assert_eq!(size_of(elem), Some(4));
        }
        other => panic!("unexpected {:?}", other),
    }
    match geps[1] {
        Inst::Gep(_, Operand::Inst(k), elem) => {
            assert_eq!(f.insts[*k], Inst::Arith(ArithOp::Sub, Operand::Const(0), Operand::Const(2)));
            assert_eq!(*elem, Type::Int);
        }
        other => panic!("unexpected {:?}", other),
    }
    assert!(matches!(geps[2], Inst::Gep(Operand::Inst(_), Operand::Const(3), _)));
}

#[test]
fn if_with_returns_in_both_branches() {
    let m = compile("int main() { if (1) { return 1; } else { return 2; } }");
    let f = &m.funcs[0];
    assert_eq!(f.blocks[0].term, Some(Terminator::CondBr(Operand::Const(1), 1, 2)));
    assert_eq!(f.blocks[1].term, Some(Terminator::Ret(Some(Operand::Const(1)))));
    assert_eq!(f.blocks[2].term, Some(Terminator::Ret(Some(Operand::Const(2)))));
    assert_eq!(f.blocks[3].name, "endif");
    assert!(f.blocks.iter().all(|b| b.term.is_some()));
    for b in &f.blocks {
        assert_ne!(b.term, Some(Terminator::Br(2)));
    }
}

#[test]
fn if_branches_join_at_merge() {
    let m = compile("int main() { int x; if (1) { x = 1; } else { x = 2; } return x; }");
    let f = &m.funcs[0];
    assert_eq!(f.blocks[0].term, Some(Terminator::CondBr(Operand::Const(1), 1, 2)));
    assert_eq!(f.blocks[1].term, Some(Terminator::Br(3)));
    assert_eq!(f.blocks[2].term, Some(Terminator::Br(3)));
    assert!(matches!(f.blocks[3].term, Some(Terminator::Ret(Some(_)))));
}

#[test]
fn for_loop_shape() {
    let m = compile("int main() { int i; for (i = 0; i < 3; i = i + 1) { } return i; }");
    let f = &m.funcs[0];
    assert_eq!(f.blocks[0].term, Some(Terminator::Br(1)));
    assert!(matches!(f.blocks[1].term, Some(Terminator::CondBr(_, 2, 3))));
    assert_eq!(f.blocks[2].term, Some(Terminator::Br(1)));
    assert_eq!(f.blocks[1].name, "begin");
    assert_eq!(f.blocks[3].name, "end");
}

#[test]
fn while_loop_shape() {
    let m = compile("int main() { int i; i = 3; while (i) i = i - 1; return i; }");
    let f = &m.funcs[0];
    assert_eq!(f.blocks[0].term, Some(Terminator::Br(1)));
    assert!(matches!(f.blocks[1].term, Some(Terminator::CondBr(_, 2, 3))));
    assert_eq!(f.blocks[2].term, Some(Terminator::Br(1)));
}

#[test]
fn loop_without_condition_always_enters() {
    let m = compile("int main() { for (;;) { return 1; } }");
    let f = &m.funcs[0];
    assert_eq!(f.blocks[1].term, Some(Terminator::CondBr(Operand::Const(1), 2, 3)));
}

#[test]
fn local_in_loop_is_allocated_once_in_entry() {
    let m = compile("int main() { int i; for (i = 0; i < 3; i = i + 1) { int y; y = i; } return 0; }");
    let f = &m.funcs[0];
    let ys = alloca_of(f, "y");
    assert_eq!(ys.len(), 1);
    assert!(f.blocks[0].insts.contains(&ys[0]));
    for b in &f.blocks[1..] {
        assert!(!b.insts.contains(&ys[0]));
    }
}

#[test]
fn indexing_lowers_to_scaled_address() {
    let m = compile("int main() { int *p; int a[3]; a[1] = 5; return 0; }");
    let f = &m.funcs[0];
    let slot = alloca_of(f, "a")[0];
    let k = f
        .insts
        .iter()
        .position(|i| matches!(i, Inst::Gep(..)))
        .unwrap();
    assert_eq!(f.insts[k], Inst::Gep(Operand::Inst(slot), Operand::Const(1), Type::Int));
    assert_eq!(f.insts[k + 1], Inst::Store(Operand::Const(5), Operand::Inst(k)));
}

#[test]
fn sizeof_uses_type_sizes() {
    let m = compile("int main() { int a[3]; int *p; return sizeof a + sizeof p + sizeof 1; }");
    let f = &m.funcs[0];
    assert_eq!(eval(f, returned_operand(f, 0)), Some(12 + 8 + 4));
}

#[test]
fn scopes_shadow_and_end() {
    let m = compile("int main() { int x; x = 1; { int x; x = 2; } return x; }");
    let f = &m.funcs[0];
    let xs = alloca_of(f, "x");
    assert_eq!(xs.len(), 2);
    match returned_operand(f, 0) {
        Operand::Inst(k) => assert_eq!(f.insts[k], Inst::Load(Operand::Inst(xs[0]), Type::Int)),
        other => panic!("unexpected {:?}", other),
    }
}

#[test]
fn parameters_get_slots_and_calls_resolve() {
    let m = compile("int add(int a, int b) { return a + b; } int main() { return add(1, 2); }");
    assert_eq!(m.funcs.len(), 2);
    let add = &m.funcs[0];
    assert_eq!(add.name, "add");
    assert_eq!(alloca_of(add, "a").len(), 1);
    assert!(add.insts.iter().any(|i| matches!(i, Inst::Store(Operand::Param(0), _))));
    assert!(add.insts.iter().any(|i| matches!(i, Inst::Store(Operand::Param(1), _))));
    let main = &m.funcs[1];
    assert!(main
        .insts
        .iter()
        .any(|i| *i == Inst::Call("add".to_string(), vec![Operand::Const(1), Operand::Const(2)])));
}

#[test]
fn recursive_call_resolves() {
    let m = compile("int f(int n) { return f(n - 1); }");
    assert!(m.funcs[0].insts.iter().any(|i| matches!(i, Inst::Call(n, _) if n == "f")));
}

#[test]
fn every_block_is_terminated() {
    let m = compile("int main() { int i; i = 0; while (i < 10) { if (i == 5) return i; i = i + 1; } }");
    for f in &m.funcs {
        assert!(f.blocks.iter().all(|b| b.term.is_some()));
        assert_eq!(f.blocks[0].name, "entry");
    }
}

#[test]
fn undeclared_identifier() {
    let r = try_compile("int main() { return y; }");
    assert_eq!(r, Err(CompileError::UndeclaredIdentifier("y".to_string())));
    assert_eq!(r.unwrap_err().kind(), ErrorKind::Semantic);
}

#[test]
fn undefined_function() {
    assert_eq!(try_compile("int main() { return g(); }"), Err(CompileError::UndefinedFunction("g".to_string())));
}

#[test]
fn address_of_non_addressable() {
    assert_eq!(try_compile("int main() { int *p; p = &1; return 0; }"), Err(CompileError::NotAddressable));
}

#[test]
fn pointer_multiplication_rejected() {
    assert_eq!(try_compile("int main() { int *p; return p * 2; }"), Err(CompileError::UnsupportedPointerOp));
    assert_eq!(try_compile("int main() { int *p; int *q; return p + q; }"), Err(CompileError::UnsupportedPointerOp));
    assert_eq!(try_compile("int main() { int *p; return p < p; }"), Err(CompileError::UnsupportedPointerOp));
}

#[test]
fn deref_of_integer_rejected() {
    assert_eq!(try_compile("int main() { return *1; }"), Err(CompileError::NotPointer));
}

#[test]
fn negating_pointer_rejected() {
    assert_eq!(try_compile("int main() { int *p; return -p; }"), Err(CompileError::UnsupportedOperands));
}

#[test]
fn float_literal_not_lowered() {
    assert_eq!(try_compile("int main() { return 1.5; }"), Err(CompileError::Unsupported));
}

#[test]
fn sizeof_function_has_no_size() {
    assert_eq!(try_compile("int main() { int f(int x); return sizeof f; }"), Err(CompileError::NoSize));
}

#[test]
fn non_function_definition_rejected() {
    assert_eq!(try_compile("int x { }"), Err(CompileError::Unsupported));
}

#[test]
fn module_name_and_empty_program() {
    let mut cg = Codegen::new("mod");
    cg.gen_program(&vec![]).unwrap();
    assert_eq!(cg.module.name, "mod");
    assert!(cg.module.funcs.is_empty());
}

#[test]
fn inside_load_strips_only_loads() {
    let l = AST::Load(Box::new(AST::Variable("x".to_string())));
    assert_eq!(inside_load(&l), Ok(&AST::Variable("x".to_string())));
    assert_eq!(inside_load(&AST::Int(1)), Err(CompileError::NotAddressable));
}

#[test]
fn pointer_subtraction_negates_index() {
    let m = compile("int main() { int a[4]; int *p; p = a; p = p - 1; return 0; }");
    let f = &m.funcs[0];
    let k = f.insts.iter().position(|i| matches!(i, Inst::Gep(..))).unwrap();
    match &f.insts[k] {
        Inst::Gep(_, idx, elem) => {
            assert_eq!(eval(f, *idx), Some(-1));
            assert_eq!(size_of(elem), Some(4));
        }
        _ => unreachable!(),
    }
}

/// Runs one block of straight-line code; slots are named by their `Alloca`.
fn run_block(f: &Function, block: usize) -> std::collections::HashMap<usize, i32> {
    let mut mem: std::collections::HashMap<usize, i32> = std::collections::HashMap::new();
    let mut vals: std::collections::HashMap<usize, i32> = std::collections::HashMap::new();
    let value = |vals: &std::collections::HashMap<usize, i32>, op: Operand| match op {
        Operand::Const(c) => c,
        Operand::Inst(k) => vals[&k],
        Operand::Param(_) => panic!("parameter"),
    };
    for &k in &f.blocks[block].insts {
        match &f.insts[k] {
            Inst::Alloca(..) => {
                vals.insert(k, k as i32);
            }
            Inst::Store(v, a) => {
                let (x, p) = (value(&vals, *v), value(&vals, *a));
                mem.insert(p as usize, x);
            }
            Inst::Load(a, _) => {
                let p = value(&vals, *a) as usize;
                vals.insert(k, mem[&p]);
            }
            Inst::Arith(ArithOp::Add, a, b) => {
                let r = value(&vals, *a).wrapping_add(value(&vals, *b));
                vals.insert(k, r);
            }
            other => panic!("not modelled: {:?}", other),
        }
    }
    vals
}

#[test]
fn deref_after_assignment_yields_stored_value() {
    let m = compile("int main() { int v; v = 40 + 2; return *&v; }");
    let f = &m.funcs[0];
    let vals = run_block(f, 0);
    match returned_operand(f, 0) {
        Operand::Inst(k) => assert_eq!(vals[&k], 42),
        other => panic!("unexpected {:?}", other),
    }
}

#[test]
fn failed_program_leaves_module_unchanged() {
    let prog = parse(
        "t.c".to_string(),
        tokenize("t.c".to_string(), "int f() { return 1; } int main() { return y; }").unwrap(),
    )
    .unwrap();
    let mut cg = Codegen::new("t");
    assert_eq!(cg.gen_program(&prog), Err(CompileError::UndeclaredIdentifier("y".to_string())));
    assert!(cg.module.funcs.is_empty());
}

#[test]
fn pointer_on_right_of_comparison_rejected() {
    assert_eq!(try_compile("int main() { int *p; return 1 < p; }"), Err(CompileError::UnsupportedPointerOp));
}
